use mapreduce::text::cat;
use mapreduce::wordcount::{not_alphabetic, reduce_groups, word_pairs, ProcessPlugin, WordCount, _build_plugin};
use mapreduce::worker::{
    group_by_key, group_pairs, intermediate_file_name, map_shards, out_file_name, parse_line, parse_records,
    records_of, reduce_output_name, split_tokens, distinction_intermediate_file,
};

fn s(x: &str) -> String {
    x.to_string()
}

fn p(k: &str, v: &str) -> (String, String) {
    (s(k), s(v))
}

#[test]
fn reduce_output_naming() {
    assert_eq!(reduce_output_name("out", "out/mr-abc_def-2"), s("out/mr-out-2"));
    assert_eq!(reduce_output_name("d", "plain"), s("d/mr-out-plain"));
    assert_eq!(reduce_output_name("d", "ends-"), s("d/mr-out-"));
}

#[test]
fn shard_file_names() {
    assert_eq!(intermediate_file_name("out", "t1", "w1", 12), s("out/mr-t1_w1-12"));
    assert_eq!(
        out_file_name(&s("t"), &s("w"), 3),
        vec![s("mr-t_w-0"), s("mr-t_w-1"), s("mr-t_w-2")]
    );
    assert!(out_file_name(&s("t"), &s("w"), -1).is_empty());
}

#[test]
fn record_round_trip() {
    let pairs = vec![p("apple", "1"), p("pear", "22")];
    let text = records_of(&pairs, 0, 2);
    assert_eq!(text, s("apple 1\npear 22\n"));
    let back: Vec<(String, String)> = text.lines().filter_map(parse_line).collect();
    assert_eq!(back, pairs);
    assert_eq!(parse_records(&text), pairs);
    assert_eq!(parse_records("a 1\n\nlonely\nb 2 x"), vec![p("a", "1"), p("b", "2")]);
}

#[test]
fn parse_line_cases() {
    assert_eq!(parse_line("  k   v extra\n"), Some(p("k", "v")));
    assert_eq!(parse_line("only"), None);
    assert_eq!(parse_line(""), None);
    assert_eq!(parse_line("a\tb"), Some(p("a", "b")));
}

#[test]
fn shards_by_position() {
    let pairs = vec![p("a", "1"), p("b", "1"), p("b", "1"), p("c", "1")];
    assert_eq!(map_shards(&pairs, 2), vec![s("a 1\nb 1\n"), s("b 1\nc 1\n")]);
    assert_eq!(map_shards(&pairs, 3), vec![s("a 1\nb 1\n"), s("b 1\nc 1\n")]);
    assert_eq!(map_shards(&pairs, 1), vec![s("a 1\nb 1\nb 1\nc 1\n")]);
    let five = vec![p("a", "1"), p("b", "1"), p("c", "1"), p("d", "1"), p("e", "1")];
    assert_eq!(map_shards(&five, 2), vec![s("a 1\nb 1\nc 1\n"), s("d 1\ne 1\n")]);
}

#[test]
fn no_pairs_no_shards() {
    assert!(map_shards(&Vec::new(), 4).is_empty());
}

#[test]
fn grouping_keeps_arrival_order() {
    let g = group_pairs(vec![p("the", "1"), p("quick", "1"), p("the", "2"), p("fox", "1")]);
    assert_eq!(
        g,
        vec![
            (s("the"), vec![s("1"), s("2")]),
            (s("quick"), vec![s("1")]),
            (s("fox"), vec![s("1")]),
        ]
    );
    let g = group_by_key(g, p("fox", "9"));
    assert_eq!(g[2], (s("fox"), vec![s("1"), s("9")]));
    let g = group_by_key(g, p("new", "0"));
    assert_eq!(g.len(), 4);
}

#[test]
fn word_count_single_file() {
    let wc = _build_plugin();
    let pairs = wc.map(s("in.txt"), s("the quick the fox"));
    assert_eq!(pairs, vec![p("the", "1"), p("quick", "1"), p("the", "1"), p("fox", "1")]);
    let groups = group_pairs(pairs);
    let mut out: Vec<(String, String)> = Vec::new();
    for (k, vs) in groups {
        let r = wc.reduce(k.clone(), vs);
        out.push((k, r));
    }
    assert_eq!(records_of(&out, 0, out.len()), s("the 2\nquick 1\nfox 1\n"));
}

#[test]
fn word_count_two_files_two_bins() {
    let wc = WordCount::default();
    let mut all = wc.map(s("A"), s("a b"));
    all.extend(wc.map(s("B"), s("b c")));
    let shards = map_shards(&all, 2);
    assert_eq!(shards.len(), 2);
    let mut total: Vec<(String, String)> = Vec::new();
    for shard in &shards {
        total.extend(parse_records(shard));
    }
    let groups = group_pairs(total);
    let counts: Vec<(String, String)> =
        groups.into_iter().map(|(k, vs)| { let r = wc.reduce(k.clone(), vs); (k, r) }).collect();
    assert_eq!(counts, vec![p("a", "1"), p("b", "2"), p("c", "1")]);
}

#[test]
fn words_split_on_non_letters() {
    assert_eq!(word_pairs("Hello, world!! 42x"), vec![p("Hello", "1"), p("world", "1"), p("x", "1")]);
    assert!(word_pairs("123 ...").is_empty());
    assert!(not_alphabetic('1'));
    assert!(!not_alphabetic('é'));
    assert_eq!(split_tokens(" a  bc ", false), vec![s("a"), s("bc")]);
    assert_eq!(WordCount::default().reduce(s("k"), vec![s("1"); 12]), s("12"));
    assert_eq!(cat("ab", "cd"), s("abcd"));
}

#[test]
fn test_file_dist() {
    let files = vec![
        s("mr-a31b4bbfc48c4f068b1d7e06a217cc70_36751d32ab68433b9bc7aee9da51c587-0"),
        s("mr-a31b4bbfc48c4f068b1d7e06a217cc70_36751d32ab68433b9bc7aee9da51c588-0"),
        s("mr-3b11093f152d42a1aaba78da46976573_36751d32ab68433b9bc7aee9da51c587-0"),
        s("mr-aaff1aa6f6514c3488211af42cc82323_36751d32ab68433b9bc7aee9da51c587-0"),
        s("mr-931d4d7ed6944f2bbf5e7bbb098905df_36751d32ab68433b9bc7aee9da51c587-0"),
        s("mr-3ae28425384e4b40a539338e5f78499b_36751d32ab68433b9bc7aee9da51c587-0"),
        s("mr-754b1a265fa940f8881195e3008b4fae_36751d32ab68433b9bc7aee9da51c587-0"),
        s("mr-ff34e84a8c844da09c2ec92883ffc88e_36751d32ab68433b9bc7aee9da51c587-0"),
        s("mr-a2fc90565c8f40a6944a216ea60ea47a_36751d32ab68433b9bc7aee9da51c587-0"),
    ];
    let result = distinction_intermediate_file(&files).len();
    assert_eq!(result, 8);
}

#[test]
fn first_path_per_task_is_kept() {
    let files = vec![
        s("mr-a31b4bbfc48c4f068b1d7e06a217cc70_x-0"),
        s("mr-a31b4bbfc48c4f068b1d7e06a217cc70_y-0"),
    ];
    assert_eq!(distinction_intermediate_file(&files), vec![files[0].clone()]);
}

#[test]
fn reduce_groups_pairs_keys_with_counts() {
    let wc = WordCount::default();
    let groups = group_pairs(vec![p("the", "1"), p("fox", "1"), p("the", "1")]);
    assert_eq!(reduce_groups(&wc, groups), vec![p("the", "2"), p("fox", "1")]);
    assert!(reduce_groups(&wc, Vec::new()).is_empty());
    assert_eq!(wc.reduce(s("the"), vec![s("1"), s("1")]), s("2"));
}

#[test]
fn whitespace_matches_std() {
    for c in ['\t', '\n', '\r', ' ', '\u{85}', '\u{a0}', '\u{2003}', '\u{3000}', 'a', '_', '\u{200b}', '1'] {
        assert_eq!(mapreduce::text::char_is_whitespace(c), c.is_whitespace());
    }
}
