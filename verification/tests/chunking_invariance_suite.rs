use mdstream::{BlockKind, MdStream, Options};

fn collect_final_blocks(
    chunks: impl IntoIterator<Item = String>,
    opts: Options,
) -> Vec<(BlockKind, String)> {
    let mut s = MdStream::new(opts);
    let mut out = Vec::new();
    for chunk in chunks {
        let u = s.append(&chunk);
        out.extend(u.committed.into_iter().map(|b| (b.kind, b.raw)));
    }
    let u = s.finalize();
    out.extend(u.committed.into_iter().map(|b| (b.kind, b.raw)));
    out
}

fn chunk_whole(text: &str) -> Vec<String> {
    vec![text.to_string()]
}

fn chunk_lines(text: &str) -> Vec<String> {
    text.split_inclusive('\n').map(|s| s.to_string()).collect()
}

fn chunk_chars(text: &str) -> Vec<String> {
    text.chars().map(|c| c.to_string()).collect()
}

fn chunk_pseudo_random(text: &str, case_name: &str, trial: u64, max_bytes: usize) -> Vec<String> {
    let mut seed: u64 = 0xcbf2_9ce4_8422_2325;
    for b in case_name.bytes() {
        seed ^= b as u64;
        seed = seed.wrapping_mul(0x0000_0100_0000_01b3);
    }
    seed ^= trial.wrapping_mul(0x9e37_79b9_7f4a_7c15);
    let mut out = Vec::new();
    let mut start = 0usize;
    while start < text.len() {
        seed = seed
            .wrapping_mul(6364136223846793005)
            .wrapping_add(1442695040888963407);
        let want = ((seed >> 33) as usize % max_bytes) + 1;
        let mut end = (start + want).min(text.len());
        while end < text.len() && !text.is_char_boundary(end) {
            end += 1;
        }
        out.push(text[start..end].to_string());
        start = end;
    }
    out
}

fn assert_invariant(case_name: &str, markdown: &str, opts: Options, trials: u64, max_bytes: usize) {
    let expected = collect_final_blocks(chunk_whole(markdown), opts.clone());

    let blocks_lines = collect_final_blocks(chunk_lines(markdown), opts.clone());
    assert_eq!(blocks_lines, expected, "case={case_name} chunker=lines");

    let blocks_chars = collect_final_blocks(chunk_chars(markdown), opts.clone());
    assert_eq!(blocks_chars, expected, "case={case_name} chunker=chars");

    for t in 0..trials {
        let blocks_rand = collect_final_blocks(
            chunk_pseudo_random(markdown, case_name, t, max_bytes),
            opts.clone(),
        );
        assert_eq!(blocks_rand, expected, "case={case_name} chunker=rand t={t}");
    }
}

#[test]
fn streamdown_benchmark_suite_chunking_invariance() {
    // Inputs sourced from Streamdown's `__benchmarks__/parse-blocks.bench.ts`.
    let single_block = "# Heading\n\nThis is a paragraph.";

    let multiple_blocks_10 = r#"
# Heading 1

This is paragraph 1.

## Heading 2

This is paragraph 2.

- List item 1
- List item 2

> Blockquote text
"#;

    let single_code_block = r#"
Some text

```javascript
const x = 1;
const y = 2;
```

More text
"#;

    let math_with_split_delimiters = r#"
Some text

$$

x^2 + y^2 = z^2

$$

More text
"#;

    let multiple_html_blocks = r#"
<div>First block</div>

Some markdown

<section>
  <p>Second block</p>
</section>

More markdown
"#;

    let with_footnotes = r#"
This is text with a footnote[^1].

Here's another footnote[^note].

[^1]: This is the first footnote.
[^note]: This is a named footnote.
"#;

    let simple_table = r#"
| Header 1 | Header 2 |
|----------|----------|
| Cell 1   | Cell 2   |
| Cell 3   | Cell 4   |
"#;

    let opts = Options::default();
    assert_invariant("single_block", single_block, opts.clone(), 16, 64);
    assert_invariant(
        "multiple_blocks_10",
        multiple_blocks_10,
        opts.clone(),
        16,
        64,
    );
    assert_invariant("single_code_block", single_code_block, opts.clone(), 16, 64);
    assert_invariant(
        "math_with_split_delimiters",
        math_with_split_delimiters,
        opts.clone(),
        16,
        64,
    );
    assert_invariant(
        "multiple_html_blocks",
        multiple_html_blocks,
        opts.clone(),
        16,
        64,
    );
    assert_invariant("with_footnotes", with_footnotes, opts.clone(), 16, 64);
    assert_invariant("simple_table", simple_table, opts.clone(), 16, 64);
}

#[test]
fn incremark_inspired_suite_chunking_invariance() {
    // Inputs inspired by Incremark's `IncremarkParser.*.test.ts`.
    let paragraph = "Hello, World!";
    let multiple_paragraphs = "第一段\n\n第二段";
    let headings = "# 标题一\n\n## 标题二\n\n内容";
    let code_block = "```js\nconsole.log(\"hi\")\n```\n\n段落";
    let gfm_table = "| A | B |\n|---|---|\n| 1 | 2 |";

    let opts = Options::default();
    assert_invariant("incremark_paragraph", paragraph, opts.clone(), 8, 32);
    assert_invariant(
        "incremark_multiple_paragraphs",
        multiple_paragraphs,
        opts.clone(),
        8,
        32,
    );
    assert_invariant("incremark_headings", headings, opts.clone(), 8, 32);
    assert_invariant("incremark_code_block", code_block, opts.clone(), 8, 32);
    assert_invariant("incremark_gfm_table", gfm_table, opts.clone(), 8, 32);
}

#[test]
fn chunking_invariance_handles_crlf_split_across_chunks() {
    let opts = Options::default();
    let markdown = "A\r\n\r\nB\r\n";

    let expected = collect_final_blocks(chunk_whole(markdown), opts.clone());
    let blocks_split_crlf = collect_final_blocks(
        vec![
            "A\r".to_string(),
            "\n\r".to_string(),
            "\nB\r".to_string(),
            "\n".to_string(),
        ],
        opts,
    );
    assert_eq!(blocks_split_crlf, expected);
}
