use mdstream::{BlockKind, MdStream, Options};

fn collect_final_blocks(
    chunks: impl IntoIterator<Item = String>,
    opts: Options,
) -> Vec<(BlockKind, String)> {
    let mut s = MdStream::new(opts);
    let mut out = Vec::new();
    for chunk in chunks {
        let u = s.append(&chunk);
        out.extend(u.committed.into_iter().map(|b| (b.kind, b.raw)));
    }
    let u = s.finalize();
    out.extend(u.committed.into_iter().map(|b| (b.kind, b.raw)));
    out
}

fn chunk_whole(text: &str) -> Vec<String> {
    vec![text.to_string()]
}

fn chunk_lines(text: &str) -> Vec<String> {
    text.split_inclusive('\n').map(|s| s.to_string()).collect()
}

fn chunk_pseudo_random(text: &str, case_name: &str, trial: u64, max_bytes: usize) -> Vec<String> {
    let mut seed: u64 = 0xcbf2_9ce4_8422_2325;
    for b in case_name.bytes() {
        seed ^= b as u64;
        seed = seed.wrapping_mul(0x0000_0100_0000_01b3);
    }
    seed ^= trial.wrapping_mul(0x9e37_79b9_7f4a_7c15);
    let mut out = Vec::new();
    let mut start = 0usize;
    while start < text.len() {
        seed = seed
            .wrapping_mul(6364136223846793005)
            .wrapping_add(1442695040888963407);
        let want = ((seed >> 33) as usize % max_bytes) + 1;
        let mut end = (start + want).min(text.len());
        while end < text.len() && !text.is_char_boundary(end) {
            end += 1;
        }
        out.push(text[start..end].to_string());
        start = end;
    }
    out
}

#[test]
fn streamdown_benchmark_simple_table_chunking_invariance() {
    // From Streamdown's parse-blocks benchmark ("Tables").
    let markdown = "\n| Header 1 | Header 2 |\n|----------|----------|\n| Cell 1   | Cell 2   |\n| Cell 3   | Cell 4   |\n";

    let opts = Options::default();
    let blocks_whole = collect_final_blocks(chunk_whole(markdown), opts.clone());
    let blocks_lines = collect_final_blocks(chunk_lines(markdown), opts.clone());
    let blocks_rand = collect_final_blocks(
        chunk_pseudo_random(
            markdown,
            "streamdown_benchmark_simple_table_chunking_invariance",
            0,
            40,
        ),
        opts,
    );

    assert_eq!(blocks_lines, blocks_whole);
    assert_eq!(blocks_rand, blocks_whole);

    assert_eq!(blocks_whole.len(), 1);
    assert_eq!(blocks_whole[0].0, BlockKind::Table);
    assert!(blocks_whole[0].1.contains("| Header 1 | Header 2 |"));
}

#[test]
fn streamdown_benchmark_large_table_chunking_invariance() {
    // From Streamdown's parse-blocks benchmark ("Tables").
    let mut markdown = String::new();
    markdown.push_str("\n| H1 | H2 | H3 | H4 | H5 |\n|----|----|----|----|-------|\n");
    for i in 0..100 {
        markdown.push_str(&format!("| C{i}1 | C{i}2 | C{i}3 | C{i}4 | C{i}5 |\n"));
    }

    let opts = Options::default();
    let blocks_whole = collect_final_blocks(chunk_whole(&markdown), opts.clone());
    let blocks_lines = collect_final_blocks(chunk_lines(&markdown), opts.clone());
    let blocks_rand = collect_final_blocks(
        chunk_pseudo_random(
            &markdown,
            "streamdown_benchmark_large_table_chunking_invariance",
            0,
            40,
        ),
        opts,
    );

    assert_eq!(blocks_lines, blocks_whole);
    assert_eq!(blocks_rand, blocks_whole);

    assert_eq!(blocks_whole.len(), 1);
    assert_eq!(blocks_whole[0].0, BlockKind::Table);
    assert!(blocks_whole[0].1.contains("| C991 | C992 | C993 | C994 | C995 |"));
}

