use ltp_server::storage::Index;
use ltp_server::storage::IndexBuilder;
use ltp_server::storage::Storage;

fn three_line_content() -> Vec<u8> {
    b"alpha\nbeta\ngamma\n".to_vec()
}

fn storage_over(content: &Vec<u8>) -> Storage {
    Storage::new("lines.txt".to_string(), Index::index(content))
}

#[test]
fn read_returns_each_line_exactly() {
    let content = three_line_content();
    let storage = storage_over(&content);
    assert_eq!(storage.read(&content, 1), Some("alpha".to_string()));
    assert_eq!(storage.read(&content, 2), Some("beta".to_string()));
    assert_eq!(storage.read(&content, 3), Some("gamma".to_string()));
}

#[test]
fn read_rejects_line_zero_and_lines_past_the_end() {
    let content = three_line_content();
    let storage = storage_over(&content);
    assert_eq!(storage.read(&content, 0), None);
    assert_eq!(storage.read(&content, 4), None);
    assert_eq!(storage.read(&content, 1_000_000), None);
}

#[test]
fn read_of_empty_file_is_absent() {
    let content: Vec<u8> = Vec::new();
    let storage = storage_over(&content);
    assert_eq!(storage.read(&content, 1), None);
}

#[test]
fn unterminated_last_line_fails_to_resolve() {
    // documented limitation: the final line lacks its delimiter
    let content = b"alpha\nbeta".to_vec();
    let storage = storage_over(&content);
    assert_eq!(storage.read(&content, 1), Some("alpha".to_string()));
    assert_eq!(storage.read(&content, 2), None);
}

#[test]
fn empty_lines_are_served_as_empty_text() {
    let content = b"\n\nmiddle\n\n".to_vec();
    let storage = storage_over(&content);
    assert_eq!(storage.read(&content, 1), Some(String::new()));
    assert_eq!(storage.read(&content, 2), Some(String::new()));
    assert_eq!(storage.read(&content, 3), Some("middle".to_string()));
    assert_eq!(storage.read(&content, 4), Some(String::new()));
    assert_eq!(storage.read(&content, 5), None);
}

#[test]
fn non_ascii_line_is_absent() {
    // the text model covers single-byte (ASCII) content only
    let mut content = b"plain\ncaf".to_vec();
    content.push(0xc3);
    content.push(0xa9);
    content.push(b'\n');
    let storage = storage_over(&content);
    assert_eq!(storage.read(&content, 1), Some("plain".to_string()));
    assert_eq!(storage.read(&content, 2), None);
}

#[test]
fn resolve_finds_the_nearest_sampled_line() {
    let content = three_line_content();
    let index = Index::index(&content);
    // a small file is sampled at every line: stride one
    assert_eq!(index.resolve(1), Some((1, 0)));
    assert_eq!(index.resolve(2), Some((2, 6)));
    assert_eq!(index.resolve(3), Some((3, 11)));
    assert_eq!(index.resolve(0), None);
    assert_eq!(index.resolve(4), None);
}

#[test]
fn resolve_is_monotonic_in_the_line_number() {
    let content = three_line_content();
    let index = Index::index(&content);
    let mut previous = 0u64;
    let mut n = 1u64;
    while n <= 3 {
        let (_, offset) = index.resolve(n).unwrap();
        assert!(previous <= offset);
        previous = offset;
        n += 1;
    }
}

#[test]
fn builder_matches_whole_content_indexing() {
    let content = three_line_content();
    // the lengths a sequential line reader yields for the same bytes
    let mut builder = IndexBuilder::new(3);
    builder.add_line(5);
    builder.add_line(4);
    builder.add_line(5);
    let index = builder.finish();
    let storage = Storage::new("lines.txt".to_string(), index);
    assert_eq!(storage.read(&content, 2), Some("beta".to_string()));
    assert_eq!(storage.read(&content, 4), None);
}

#[test]
fn find_line_offset_counts_delimiters() {
    let content = three_line_content();
    assert_eq!(Storage::find_line_offset(&content, 0, 0), Some(0));
    assert_eq!(Storage::find_line_offset(&content, 0, 1), Some(6));
    assert_eq!(Storage::find_line_offset(&content, 0, 2), Some(11));
    assert_eq!(Storage::find_line_offset(&content, 0, 3), Some(17));
    assert_eq!(Storage::find_line_offset(&content, 0, 4), None);
    assert_eq!(Storage::find_line_offset(&content, 6, 1), Some(11));
}

#[test]
fn read_line_stops_at_the_next_delimiter() {
    let content = three_line_content();
    assert_eq!(Storage::read_line(&content, 0), Some("alpha".to_string()));
    assert_eq!(Storage::read_line(&content, 6), Some("beta".to_string()));
    assert_eq!(Storage::read_line(&content, 8), Some("ta".to_string()));
    assert_eq!(Storage::read_line(&content, 17), None);
}

#[test]
fn storage_keeps_its_path() {
    let content = three_line_content();
    let storage = storage_over(&content);
    assert_eq!(storage.path().as_str(), "lines.txt");
}

#[test]
fn read_spans_page_boundaries() {
    // one line longer than a page, then many lines past the first page
    let long_line: Vec<u8> = vec![b'x'; 10_000];
    let mut content = long_line.clone();
    content.push(b'\n');
    let mut i = 0;
    while i < 2000 {
        content.extend_from_slice(format!("line{}\n", i).as_bytes());
        i += 1;
    }
    let storage = Storage::new("lines.txt".to_string(), Index::index(&content));
    assert_eq!(
        storage.read(&content, 1),
        Some(String::from_utf8(long_line).unwrap())
    );
    assert_eq!(storage.read(&content, 2), Some("line0".to_string()));
    assert_eq!(storage.read(&content, 2001), Some("line1999".to_string()));
    assert_eq!(storage.read(&content, 2002), None);
}

#[test]
fn large_file_uses_a_coarser_stride() {
    // enough lines that only every second line start is sampled
    let lines: u64 = 2 * 1024 * 1024 + 3;
    let mut content = Vec::with_capacity((lines as usize) * 2);
    let mut i: u64 = 0;
    while i < lines {
        content.push(b'0' + (i % 10) as u8);
        content.push(b'\n');
        i += 1;
    }
    let index = Index::index(&content);
    // with a stride of two, lines three and four share the sample at line
    // three, which starts after two two-byte lines
    assert_eq!(index.resolve(3), Some((3, 4)));
    assert_eq!(index.resolve(4), Some((3, 4)));
    let storage = Storage::new("lines.txt".to_string(), index);
    assert_eq!(storage.read(&content, 1), Some("0".to_string()));
    assert_eq!(storage.read(&content, 2), Some("1".to_string()));
    assert_eq!(storage.read(&content, 12), Some("1".to_string()));
    assert_eq!(
        storage.read(&content, lines),
        Some(((lines - 1) % 10).to_string())
    );
    assert_eq!(storage.read(&content, lines + 1), None);
}
