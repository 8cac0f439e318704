use minigrep::search;
use minigrep::search_insensitive;

#[test]
fn case_sensitive() {
    let content = "\
hello my name is rust.
I am compiled language,
developed for high performance and memory consumption 
    ";

    let query = "ang";

    assert_eq!(vec!["I am compiled language,"], search(query, content));
}

#[test]
fn case_insensitive() {
    let content = "\
hello my name is rust.
I am compiled language,
developed for hiGh peRformance and memory consumption";

    let query = "eRf";

    assert_eq!(
        vec!["developed for hiGh peRformance and memory consumption"],
        search(query, content)
    );
}

#[test]
fn case_insensitive_search_finds_the_same_line() {
    let content = "\
hello my name is rust.
I am compiled language,
developed for hiGh peRformance and memory consumption";

    assert_eq!(
        vec!["developed for hiGh peRformance and memory consumption"],
        search_insensitive("eRf", content)
    );
    assert_eq!(
        vec!["developed for hiGh peRformance and memory consumption"],
        search_insensitive("ERF", content)
    );
    assert_eq!(
        vec!["developed for hiGh peRformance and memory consumption"],
        search_insensitive("erf", content)
    );
}

#[test]
fn exact_search_heeds_case() {
    let content = "Rust:\nsafe, fast, productive.\nPick three.\nTrust me.";

    assert_eq!(vec!["Rust:"], search("Rust", content));
    assert_eq!(vec!["Trust me."], search("rust", content));
    assert_eq!(Vec::<&str>::new(), search("RUST", content));
}

#[test]
fn folded_search_ignores_case() {
    let content = "Rust:\nsafe, fast, productive.\nPick three.\nTrust me.";

    assert_eq!(vec!["Rust:", "Trust me."], search_insensitive("rUsT", content));
    assert_eq!(vec!["Rust:", "Trust me."], search_insensitive("RUST", content));
    assert_eq!(vec!["Pick three."], search_insensitive("pick", content));
}

#[test]
fn folded_search_returns_lines_as_written() {
    let found = search_insensitive("hello", "HeLLo World\nbye");

    assert_eq!(vec!["HeLLo World"], found);
}

#[test]
fn folded_search_folds_beyond_ascii() {
    let content = "ÄPFEL und Birnen\nÉcole\nстрока ПОИСКА";

    assert_eq!(vec!["ÄPFEL und Birnen"], search_insensitive("äpfel", content));
    assert_eq!(vec!["École"], search_insensitive("ÉCOLE", content));
    assert_eq!(vec!["строка ПОИСКА"], search_insensitive("Поиска", content));
    assert_eq!(Vec::<&str>::new(), search("äpfel", content));
}

#[test]
fn no_match_is_an_empty_result() {
    assert_eq!(Vec::<&str>::new(), search("xyz", "one\ntwo\nthree"));
    assert_eq!(Vec::<&str>::new(), search_insensitive("xyz", "one\ntwo\nthree"));
    assert_eq!(Vec::<&str>::new(), search("a", ""));
    assert_eq!(Vec::<&str>::new(), search_insensitive("a", ""));
}

#[test]
fn empty_query_matches_every_line() {
    let content = "one\n\ntwo\r\nthree\n";
    let all = vec!["one", "", "two", "three"];

    assert_eq!(all, search("", content));
    assert_eq!(all, search_insensitive("", content));
    assert_eq!(Vec::<&str>::new(), search("", ""));
    assert_eq!(Vec::<&str>::new(), search_insensitive("", ""));
}

#[test]
fn matches_keep_their_order_and_number() {
    let content = "ab\nxx\nab\nba\nab";

    assert_eq!(vec!["ab", "ab", "ab"], search("ab", content));
    assert_eq!(vec!["ab", "ab", "ba", "ab"], search("b", content));
    assert_eq!(vec!["ab", "ab", "ab"], search_insensitive("AB", content));
}

#[test]
fn query_is_not_found_across_lines() {
    assert_eq!(Vec::<&str>::new(), search("ab", "a\nb"));
    assert_eq!(Vec::<&str>::new(), search("a\nb", "a\nb"));
    assert_eq!(Vec::<&str>::new(), search("a\r", "a\r\nb"));
    assert_eq!(vec!["a\r"], search("a\r", "a\r"));
}

#[test]
fn exact_matches_are_among_folded_matches() {
    let content = "Alpha\nalpha\nBETA\nbeta\nalphabet";

    for query in ["Alpha", "alpha", "BETA", "bet", "a", "Z"] {
        let exact = search(query, content);
        let folded = search_insensitive(query, content);
        assert!(exact.len() <= folded.len());
        let among: Vec<&str> = folded.iter().copied().filter(|line| line.contains(query)).collect();
        assert_eq!(exact, among);
    }
}

#[test]
fn final_sigma_is_lost_in_folding() {
    // In lowercase the sigma at the end of the query is another letter
    // than the sigma inside the word of the line.
    assert_eq!(vec!["ΑΣΑ"], search("ΑΣ", "ΑΣΑ"));
    assert_eq!(Vec::<&str>::new(), search_insensitive("ΑΣ", "ΑΣΑ"));
}

#[test]
fn results_are_slices_of_the_content() {
    let content = String::from("first\nsecond\nthird");
    let found = search("d", &content);

    assert_eq!(vec!["second", "third"], found);
    let start = content.as_ptr() as usize;
    assert_eq!(found[0].as_ptr() as usize, start + 6);
    assert_eq!(found[1].as_ptr() as usize, start + 13);
}

#[test]
fn search_agrees_with_filtering_the_lines() {
    let contents = [
        "",
        "\n",
        "one\ntwo\nthree\n",
        "One\r\nTWO\r\nthree",
        "a\n\nA\n\na",
        "Straße\nSTRASSE\nstrasse\n",
        "ΟΔΟΣ\nοδος\nοδοσ\n",
        "İstanbul\nistanbul\nISTANBUL",
        "tab\tTAB\n  \n\r\n",
    ];
    let queries = ["", "o", "O", "t", "T", "a", "ss", "ß", "σ", "ς", "Σ", "i", "İ", "\t", " ", "\r"];
    for content in contents {
        for query in queries {
            let exact: Vec<&str> = content.lines().filter(|line| line.contains(query)).collect();
            assert_eq!(exact, search(query, content), "{:?} in {:?}", query, content);

            let folded_query = query.to_lowercase();
            let folded: Vec<&str> = content
                .lines()
                .filter(|line| line.to_lowercase().contains(&folded_query))
                .collect();
            assert_eq!(folded, search_insensitive(query, content), "{:?} in {:?}", query, content);
        }
    }
}
