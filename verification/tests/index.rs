use faust::index::{
    binary_prefix, count_text, elide, matches_terms, query_terms, relative, scan_hits, searchable_size,
    FileEntry, FileStream, Hit, HitStream, Message, Results, BATCH, HIT_BATCH, MAX_ENTRIES, MAX_HITS, MAX_LINE,
    MAX_SEARCH_BYTES,
};

#[test]
fn long_lines_are_elided_on_a_char_boundary() {
    let line = "é".repeat(400);
    let out = elide(&line);
    assert!(out.ends_with('…'));
    assert!(out.len() <= MAX_LINE + 4);
}

#[test]
fn short_lines_are_untouched() {
    assert_eq!(elide("  hello  "), "hello");
}

#[test]
fn an_ascii_line_is_cut_at_the_limit() {
    let line = "x".repeat(300);
    let out = elide(&line);
    assert_eq!(out, format!("{}…", "x".repeat(MAX_LINE)));
    assert_eq!(elide(&"y".repeat(MAX_LINE)), "y".repeat(MAX_LINE));
}

#[test]
fn query_terms_are_lower_case_words() {
    let terms = query_terms("  Foo  bAR ");
    let words: Vec<String> = terms.iter().map(|t| t.iter().collect()).collect();
    assert_eq!(words, vec!["foo", "bar"]);
    assert!(query_terms("   ").is_empty());
}

#[test]
fn a_line_matches_when_it_holds_every_term() {
    let terms = query_terms("alpha beta");
    assert!(matches_terms("BETA then Alpha", &terms));
    assert!(!matches_terms("alpha only", &terms));
    assert!(matches_terms("anything", &Vec::new()));
}

#[test]
fn hits_carry_line_numbers_and_stop_at_the_budget() {
    let terms = query_terms("needle");
    let text = "hay\nneedle one\r\nhay\n  needle two  \nneedle three";
    let hits = scan_hits("/v/a.md", "a.md", text, &terms, 2);
    assert_eq!(hits.len(), 2);
    assert_eq!((hits[0].line, hits[0].text.as_str()), (2, "needle one"));
    assert_eq!((hits[1].line, hits[1].text.as_str()), (4, "needle two"));
    assert_eq!(hits[1].display, "a.md");
    let all = scan_hits("/v/a.md", "a.md", text, &terms, 10);
    assert_eq!(all.len(), 3);
    assert_eq!(all[2].line, 5);
}

#[test]
fn size_and_binary_checks() {
    assert!(searchable_size(MAX_SEARCH_BYTES));
    assert!(!searchable_size(MAX_SEARCH_BYTES + 1));
    assert!(binary_prefix(&[1, 2, 0]));
    let mut late = vec![1u8; 2000];
    late[1500] = 0;
    assert!(!binary_prefix(&late));
}

#[test]
fn paths_are_shown_relative_to_the_vault() {
    assert_eq!(relative("/v", "/v/notes/a.md"), Some("notes/a.md".to_owned()));
    assert_eq!(relative("/v", "/w/a.md"), Some("/w/a.md".to_owned()));
}

fn entry(n: usize) -> FileEntry {
    FileEntry { path: format!("/v/{n}"), display: format!("{n}"), is_dir: false }
}

#[test]
fn index_entries_come_in_batches() {
    let mut stream = FileStream::new(7);
    let mut batches = 0;
    for n in 0..BATCH {
        let (message, stop) = stream.push(entry(n));
        assert!(!stop);
        if let Some(Message::Files { generation, entries, done }) = message {
            assert_eq!((generation, entries.len(), done), (7, BATCH, false));
            batches += 1;
        }
    }
    assert_eq!(batches, 1);
    let (message, _) = stream.push(entry(0));
    assert!(message.is_none());
    match stream.finish() {
        Message::Files { entries, done, .. } => assert_eq!((entries.len(), done), (1, true)),
        Message::Hits { .. } => panic!("expected files"),
    }
    assert!(MAX_ENTRIES > BATCH);
}

fn hit(n: u32) -> Hit {
    Hit { path: "/v/a.md".to_owned(), display: "a.md".to_owned(), line: n, text: format!("{n}") }
}

#[test]
fn content_hits_stop_at_the_limit() {
    let mut stream = HitStream::new(3);
    let mut sent = 0;
    let mut finished = false;
    for n in 0..MAX_HITS {
        assert!(!finished);
        let (messages, over) = stream.push(hit(n as u32));
        for message in messages {
            if let Message::Hits { hits, done, .. } = message {
                sent += hits.len();
                finished |= done;
            }
        }
        if over {
            assert_eq!(n + 1, MAX_HITS);
        }
    }
    assert!(finished);
    assert_eq!(sent, MAX_HITS);
    assert_eq!(HIT_BATCH, 64);
}

#[test]
fn the_status_count_names_files_not_folders() {
    let mut files = vec![entry(1), entry(2)];
    files.push(FileEntry { path: "/v/dir".to_owned(), display: "dir".to_owned(), is_dir: true });
    assert_eq!(count_text(&files, false), "2 files");
    assert_eq!(count_text(&files[..1].to_vec(), false), "1 file");
    assert_eq!(count_text(&Vec::new(), false), "0 files");
    assert_eq!(count_text(&files, true), "indexing\u{2026}");
}

#[test]
fn results_of_a_superseded_request_are_dropped() {
    let mut results = Results::new();
    results.files_generation = 2;
    results.indexing = true;
    results.receive(Message::Files { generation: 1, entries: vec![entry(1)], done: true });
    assert!(results.files.is_empty());
    assert!(results.indexing);
    results.receive(Message::Files { generation: 2, entries: vec![entry(2)], done: false });
    results.receive(Message::Files { generation: 2, entries: vec![entry(3)], done: true });
    assert_eq!(results.files.iter().map(|e| e.display.clone()).collect::<Vec<_>>(), ["2", "3"]);
    assert!(!results.indexing);
}

#[test]
fn hits_of_the_current_search_accumulate() {
    let mut results = Results::new();
    results.hits_generation = 5;
    results.searching = true;
    let hit = |line: u32| Hit { path: "/v/a".to_owned(), display: "a".to_owned(), line, text: "x".to_owned() };
    results.receive(Message::Hits { generation: 4, hits: vec![hit(1)], done: true });
    assert!(results.hits.is_empty());
    assert!(results.searching);
    results.receive(Message::Hits { generation: 5, hits: vec![hit(2), hit(3)], done: true });
    assert_eq!(results.hits.iter().map(|h| h.line).collect::<Vec<_>>(), [2, 3]);
    assert!(!results.searching);
}
