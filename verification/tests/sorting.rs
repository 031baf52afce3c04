use txt_sorter::lines::{join, split};
use txt_sorter::slow;
use txt_sorter::standard;

fn lines(xs: &[&str]) -> Vec<Vec<u8>> {
    let mut v: Vec<Vec<u8>> = Vec::new();
    for x in xs {
        v.push(x.as_bytes().to_vec());
    }
    v
}

fn bytes(s: &str) -> Vec<u8> {
    s.as_bytes().to_vec()
}

#[test]
fn read_test() {
    let expected = lines(&["b", "a", "c"]);
    let content = bytes("b\na\nc");
    let a = standard::read(&content, &bytes("\n"));
    assert_eq!(a, expected);
}

#[test]
fn read_drops_no_interior_lines_and_no_trailing_artifact() {
    let delim = bytes("\n");
    // a trailing delimiter ends the last line; it opens no empty one
    assert_eq!(standard::read(&bytes("b\na\nc\n"), &delim), lines(&["b", "a", "c"]));
    assert_eq!(standard::read(&bytes("a\n"), &delim), lines(&["a"]));
    // interior empty lines are kept
    assert_eq!(standard::read(&bytes("a\n\nb"), &delim), lines(&["a", "", "b"]));
    assert_eq!(standard::read(&bytes("\n"), &delim), lines(&[""]));
    // an empty input holds no line at all
    assert_eq!(standard::read(&bytes(""), &delim), Vec::<Vec<u8>>::new());
}

#[test]
fn sort_test() {
    let input = lines(&["b", "a", "c"]);
    let processed = standard::sort(input, &bytes("\n"));
    let expected = bytes("a\nb\nc");
    assert_eq!(processed, expected);
}

#[test]
fn standard_sort_is_sorted_permutation() {
    let input = lines(&["pear", "apple", "banana", "apple", ""]);
    let sorted = standard::standard_sort(input);
    assert_eq!(sorted, lines(&["", "apple", "apple", "banana", "pear"]));
}

#[test]
fn standard_sort_empty_input() {
    let sorted = standard::standard_sort(Vec::new());
    assert_eq!(sorted, Vec::<Vec<u8>>::new());
}

#[test]
fn bucketed_sort_groups_by_key_and_sorts() {
    let input = lines(&["b2", "a1", "", "a0", "*x", "1k", "b1"]);
    let sorted = slow::bucketed_sort(input);
    // keys ascend: '-' (42 for '*' falls back to 45) < '1' < 'a' < 'b';
    // the empty line is dropped.
    assert_eq!(sorted, lines(&["*x", "1k", "a0", "a1", "b1", "b2"]));
}

#[test]
fn bucketed_sort_keeps_duplicates() {
    let input = lines(&["aa", "ab", "aa"]);
    let sorted = slow::bucketed_sort(input);
    assert_eq!(sorted, lines(&["aa", "aa", "ab"]));
}

#[test]
fn bucketed_sort_empty_lines_only_gives_empty_output() {
    let input = lines(&["", ""]);
    let sorted = slow::bucketed_sort(input);
    assert_eq!(sorted, Vec::<Vec<u8>>::new());
}

#[test]
fn standard_sort_idempotent() {
    let once = standard::standard_sort(lines(&["c", "a", "b"]));
    let twice = standard::standard_sort(once.clone());
    assert_eq!(once, twice);
}

#[test]
fn bucketed_sort_idempotent() {
    let once = slow::bucketed_sort(lines(&["c", "a", "b", "1x", "*y"]));
    let twice = slow::bucketed_sort(once.clone());
    assert_eq!(once, twice);
}

#[test]
fn sort_round_trip_same_lines() {
    let text = bytes("pear\napple\nbanana\napple");
    let delim = bytes("\n");
    let pieces = split(&text, &delim);
    let sorted = standard::standard_sort(pieces.clone());
    let joined = join(&sorted, &delim);
    let mut reread = split(&joined, &delim);
    // the same multiset of lines as the original, re-ordered
    assert_eq!(reread, sorted);
    let mut original = pieces;
    original.sort();
    reread.sort();
    assert_eq!(reread, original);
}

#[test]
fn join_split_rebuilds_text() {
    let text = bytes("one,two,,three,");
    let delim = bytes(",");
    assert_eq!(join(&split(&text, &delim), &delim), text);
    let multi = bytes("one--two---three");
    let dd = bytes("--");
    assert_eq!(split(&multi, &dd), lines(&["one", "two", "-three"]));
    assert_eq!(join(&split(&multi, &dd), &dd), multi);
}

#[test]
fn split_edge_cases() {
    let delim = bytes("\n");
    assert_eq!(split(&bytes(""), &delim), lines(&[""]));
    assert_eq!(split(&bytes("a\n"), &delim), lines(&["a", ""]));
    assert_eq!(split(&bytes("\n\n"), &delim), lines(&["", "", ""]));
    // an empty delimiter never matches: the whole text is one piece
    assert_eq!(split(&bytes("abc"), &bytes("")), lines(&["abc"]));
}

#[test]
fn partition_keys_follow_first_byte() {
    assert_eq!(slow::partition_key(&bytes("apple")), b'a');
    assert_eq!(slow::partition_key(&bytes("Banana")), b'B');
    assert_eq!(slow::partition_key(&bytes("1kiwi")), b'1');
    assert_eq!(slow::partition_key(&bytes("*weird")), b'-');
}

#[test]
fn low_mode_buckets_scenario() {
    // partition phase: one bucket per distinct key, ascending keys
    let input = lines(&["apple", "Banana", "1kiwi", "*weird"]);
    let buckets = slow::read(&input);
    let keys: Vec<u8> = buckets.iter().map(|b| b.key).collect();
    assert_eq!(keys, vec![b'-', b'1', b'B', b'a']);
    assert_eq!(buckets[0].lines, lines(&["*weird"]));
    assert_eq!(buckets[1].lines, lines(&["1kiwi"]));
    assert_eq!(buckets[2].lines, lines(&["Banana"]));
    assert_eq!(buckets[3].lines, lines(&["apple"]));
    // merge phase: ascending key order, each bucket internally sorted
    let merged = slow::merge_buckets(&buckets);
    assert_eq!(merged, lines(&["*weird", "1kiwi", "Banana", "apple"]));
}

#[test]
fn low_mode_sort_writes_joined_buckets() {
    let input = lines(&["b", "aa", "a", "b", ""]);
    let buckets = slow::read(&input);
    let out = slow::sort(buckets, &bytes("\n"));
    assert_eq!(out, bytes("a\naa\nb\nb"));
}

#[test]
fn sort_orders_buckets_handed_over_unordered() {
    let buckets = vec![
        slow::Bucket { key: b'b', lines: lines(&["bb", "ba"]) },
        slow::Bucket { key: b'-', lines: lines(&["*z"]) },
        slow::Bucket { key: b'a', lines: lines(&["ab", "aa"]) },
    ];
    let out = slow::sort(buckets, &bytes("\n"));
    assert_eq!(out, bytes("*z\naa\nab\nba\nbb"));
}

#[test]
fn bucket_reused_for_repeated_key() {
    let input = lines(&["alpha", "axe", "ant"]);
    let buckets = slow::read(&input);
    assert_eq!(buckets.len(), 1);
    assert_eq!(buckets[0].key, b'a');
    assert_eq!(buckets[0].lines, lines(&["alpha", "axe", "ant"]));
}
