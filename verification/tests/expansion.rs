use feedwatch::radix::{advance, combinations, divisors, get_combinations};
use feedwatch::template::{expand, is_comment_chars, parse_feeds_var, Template};
use feedwatch::text::{
    chars_of, find, is_space, same_text, split_chars, string_of, trim_bounds,
};

fn chars(s: &str) -> Vec<char> {
    s.chars().collect()
}

#[test]
fn expand_vars() {
    let a = parse_feeds_var("{A|B|C}_{D|E}\nasdf\n# {DD|CC}");
    assert_eq!(a, vec!["A_D", "A_E", "B_D", "B_E", "C_D", "C_E", "asdf"]);
}

#[test]
fn expand_two_groups_leftmost_slowest() {
    assert_eq!(expand("{A|B|C}_{D|E}"), vec!["A_D", "A_E", "B_D", "B_E", "C_D", "C_E"]);
}

#[test]
fn expand_plain_line_is_itself() {
    assert_eq!(expand("plain_line"), vec!["plain_line"]);
}

#[test]
fn expand_comment_is_nothing() {
    assert_eq!(expand("# comment {A|B}"), Vec::<String>::new());
}

#[test]
fn expand_comment_after_whitespace() {
    assert_eq!(expand("  \t# {A|B}"), Vec::<String>::new());
    assert_eq!(expand("\u{a0}#x"), Vec::<String>::new());
}

#[test]
fn expand_hash_inside_is_no_comment() {
    assert_eq!(expand("a#{b|c}"), vec!["a#b", "a#c"]);
    assert_eq!(expand("x # y"), vec!["x # y"]);
}

#[test]
fn expand_empty_line_is_itself() {
    assert_eq!(expand(""), vec![""]);
    assert_eq!(expand("   "), vec!["   "]);
}

#[test]
fn expand_unterminated_group_is_literal() {
    assert_eq!(expand("abc{def"), vec!["abc{def"]);
    assert_eq!(expand("a{b|c}d{e"), vec!["abd{e", "acd{e"]);
    assert_eq!(expand("{"), vec!["{"]);
}

#[test]
fn expand_closing_brace_alone_is_literal() {
    assert_eq!(expand("a}b{c|d}"), vec!["a}bc", "a}bd"]);
}

#[test]
fn expand_group_runs_to_first_closing_brace() {
    assert_eq!(expand("{a{b}c}"), vec!["a{bc}"]);
}

#[test]
fn expand_empty_alternatives() {
    assert_eq!(expand("{}"), vec![""]);
    assert_eq!(expand("x{|a}y"), vec!["xy", "xay"]);
    assert_eq!(expand("{a||b}"), vec!["a", "", "b"]);
}

#[test]
fn expand_three_groups_in_mixed_radix_order() {
    let out = expand("{0|1}{0|1|2}{0|1}");
    assert_eq!(
        out,
        vec!["000", "001", "010", "011", "020", "021", "100", "101", "110", "111", "120", "121"]
    );
}

#[test]
fn expand_count_is_product_of_sizes() {
    let out = expand("a{1|2|3}b{4|5}c{6|7|8|9}d");
    assert_eq!(out.len(), 3 * 2 * 4);
    assert_eq!(out[0], "a1b4c6d");
    assert_eq!(out[23], "a3b5c9d");
    let mut unique = out.clone();
    unique.sort();
    unique.dedup();
    assert_eq!(unique.len(), 24);
    for x in ["1", "2", "3"] {
        for y in ["4", "5"] {
            for z in ["6", "7", "8", "9"] {
                assert!(out.contains(&format!("a{}b{}c{}d", x, y, z)));
            }
        }
    }
}

#[test]
fn expand_equal_alternatives_repeat() {
    assert_eq!(expand("{a|a}"), vec!["a", "a"]);
    assert_eq!(expand("{a|ab}{bc|c}"), vec!["abc", "ac", "abbc", "abc"]);
}

#[test]
fn expand_keeps_characters_beyond_ascii() {
    assert_eq!(expand("ü{é|日本}ß"), vec!["üéß", "ü日本ß"]);
}

#[test]
fn expand_url_template() {
    assert_eq!(
        expand("https://example.org/feed?lang={en|de}&page={1|2}"),
        vec![
            "https://example.org/feed?lang=en&page=1",
            "https://example.org/feed?lang=en&page=2",
            "https://example.org/feed?lang=de&page=1",
            "https://example.org/feed?lang=de&page=2",
        ]
    );
}

#[test]
fn feeds_lines_split_at_line_feed_only() {
    assert_eq!(parse_feeds_var("a\r\nb"), vec!["a\r", "b"]);
    assert_eq!(parse_feeds_var("a\n"), vec!["a", ""]);
    assert_eq!(parse_feeds_var(""), vec![""]);
    assert_eq!(parse_feeds_var("#x\n#y"), Vec::<String>::new());
}

#[test]
fn feeds_in_file_order() {
    assert_eq!(
        parse_feeds_var("{b|a}\n # no\nz{1|2}\nlast"),
        vec!["b", "a", "z1", "z2", "last"]
    );
}

#[test]
fn template_parts() {
    let t = Template::parse("a{b|c}d{e}f");
    assert_eq!(t.literals, vec![chars("a"), chars("d"), chars("f")]);
    assert_eq!(t.groups, vec![vec![chars("b"), chars("c")], vec![chars("e")]]);
    assert_eq!(t.sizes(), vec![2, 1]);
    assert_eq!(t.render(&vec![1, 0]), "acdef");
    assert_eq!(t.expand(), vec!["abdef", "acdef"]);
}

#[test]
fn template_without_group() {
    let t = Template::parse("abc");
    assert_eq!(t.literals, vec![chars("abc")]);
    assert!(t.groups.is_empty());
    assert_eq!(t.sizes(), Vec::<usize>::new());
    assert_eq!(t.render(&vec![]), "abc");
}

#[test]
fn template_group_without_alternatives_adds_nothing() {
    let t = Template {
        literals: vec![chars("a"), chars("b"), chars("c")],
        groups: vec![vec![], vec![chars("x"), chars("y")]],
    };
    assert_eq!(t.sizes(), vec![0, 2]);
    assert_eq!(t.expand(), vec!["abxc", "abyc"]);
    assert_eq!(t.render(&vec![7, 1]), "abyc");
}

#[test]
fn combinations_rows() {
    assert_eq!(
        combinations(&vec![3, 2]),
        vec![vec![0, 0], vec![0, 1], vec![1, 0], vec![1, 1], vec![2, 0], vec![2, 1]]
    );
    assert_eq!(combinations(&vec![]), vec![Vec::<usize>::new()]);
    assert_eq!(combinations(&vec![1]), vec![vec![0]]);
}

#[test]
fn combinations_skip_empty_positions() {
    assert_eq!(combinations(&vec![2, 0, 2]), vec![vec![0, 0, 0], vec![0, 0, 1], vec![1, 0, 0], vec![1, 0, 1]]);
    assert_eq!(combinations(&vec![0]), vec![vec![0]]);
}

#[test]
fn get_combinations_formula() {
    let sizes = vec![3, 2, 4];
    let divisors = vec![8, 4, 1];
    assert_eq!(get_combinations(0, &sizes, &divisors), vec![0, 0, 0]);
    assert_eq!(get_combinations(7, &sizes, &divisors), vec![0, 1, 3]);
    assert_eq!(get_combinations(13, &sizes, &divisors), vec![1, 1, 1]);
    assert_eq!(get_combinations(23, &sizes, &divisors), vec![2, 1, 3]);
    assert_eq!(get_combinations(5, &vec![0, 3], &vec![0, 1]), vec![0, 2]);
}

#[test]
fn advance_steps_like_an_odometer() {
    let sizes = vec![2, 0, 3];
    let mut picks = vec![0, 0, 0];
    assert!(advance(&mut picks, &sizes));
    assert_eq!(picks, vec![0, 0, 1]);
    assert!(advance(&mut picks, &sizes));
    assert_eq!(picks, vec![0, 0, 2]);
    assert!(advance(&mut picks, &sizes));
    assert_eq!(picks, vec![1, 0, 0]);
    picks = vec![1, 0, 2];
    assert!(!advance(&mut picks, &sizes));
    assert_eq!(picks, vec![0, 0, 0]);
    let mut none: Vec<usize> = vec![];
    assert!(!advance(&mut none, &vec![]));
}

#[test]
fn combinations_agree_with_the_formula() {
    let sizes = vec![3, 1, 0, 4, 2];
    let weights = divisors(&sizes).unwrap();
    assert_eq!(weights, vec![8, 8, 8, 2, 1]);
    let rows = combinations(&sizes);
    assert_eq!(rows.len(), 24);
    for (n, row) in rows.iter().enumerate() {
        assert_eq!(*row, get_combinations(n, &sizes, &weights));
    }
}

#[test]
fn divisors_are_the_products_to_the_right() {
    assert_eq!(divisors(&vec![]), Some(vec![]));
    assert_eq!(divisors(&vec![7]), Some(vec![1]));
    assert_eq!(divisors(&vec![3, 2, 4]), Some(vec![8, 4, 1]));
    assert_eq!(divisors(&vec![0, 0]), Some(vec![1, 1]));
    assert_eq!(divisors(&vec![usize::MAX, usize::MAX]), Some(vec![usize::MAX, 1]));
    assert_eq!(divisors(&vec![1, usize::MAX, 2]), None);
    assert_eq!(divisors(&vec![1, 2, usize::MAX]), None);
    assert_eq!(divisors(&vec![1, 2, usize::MAX / 2]), Some(vec![usize::MAX - 1, usize::MAX / 2, 1]));
}

#[test]
fn many_groups_of_one_alternative() {
    let wide = "{a}".repeat(200);
    assert_eq!(expand(&wide), vec!["a".repeat(200)]);
    let line = format!("{}{}", "{x}".repeat(70), "{0|1}".repeat(3));
    let out = expand(&line);
    assert_eq!(out.len(), 8);
    assert_eq!(out[5], format!("{}101", "x".repeat(70)));
}

#[test]
fn comment_lines() {
    assert!(is_comment_chars(&chars("#")));
    assert!(is_comment_chars(&chars(" \t # x")));
    assert!(!is_comment_chars(&chars("")));
    assert!(!is_comment_chars(&chars("   ")));
    assert!(!is_comment_chars(&chars("x#")));
    assert!(!is_comment_chars(&chars("_#")));
}

#[test]
fn text_helpers() {
    assert_eq!(chars_of("aé日"), vec!['a', 'é', '日']);
    assert_eq!(string_of(&chars("hello"), 1, 4), "ell");
    assert_eq!(find(&chars("a=b=c"), '=', 0, 5), 1);
    assert_eq!(find(&chars("a=b=c"), '=', 2, 5), 3);
    assert_eq!(find(&chars("a=b=c"), '=', 4, 5), 5);
    assert_eq!(find(&chars("a=b=c"), '=', 2, 3), 3);
    assert_eq!(split_chars(&chars("a|b||c"), '|'), vec![chars("a"), chars("b"), chars(""), chars("c")]);
    assert_eq!(split_chars(&chars(""), '|'), vec![chars("")]);
    assert_eq!(split_chars(&chars("|"), '|'), vec![chars(""), chars("")]);
    assert_eq!(trim_bounds(&chars("  ab c \n")), (2, 6));
    assert_eq!(trim_bounds(&chars("   ")), (3, 3));
    assert_eq!(trim_bounds(&chars("")), (0, 0));
    assert_eq!(trim_bounds(&chars("x")), (0, 1));
    assert!(same_text("abc", "abc"));
    assert!(!same_text("abc", "abd"));
    assert!(!same_text("abc", "ab"));
    assert!(same_text("", ""));
}

#[test]
fn whitespace_is_what_the_standard_library_trims() {
    for code in 0..=0x10ffffu32 {
        if let Some(c) = char::from_u32(code) {
            assert_eq!(is_space(c), c.is_whitespace(), "{:?}", c);
        }
    }
}

#[test]
fn trimming_agrees_with_the_standard_library() {
    for s in ["", " ", "a", " a", "a ", "\u{2003}x y\u{3000}", "\t\n\r x\u{85}", "\u{200b}x"] {
        let v = chars(s);
        let (from, to) = trim_bounds(&v);
        let mine: String = v[from..to].iter().collect();
        assert_eq!(mine, s.trim());
    }
}
