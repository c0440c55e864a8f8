use minigrep::{search, search_case_insensitive};

const POEM: &str = "I'm nobody! Who are you?\nAre you nobody, too?\nThen there's a pair of us - don't tell!\nThey'd banish us, you know.\n\nHow dreary to be somebody!\nHow public, like a frog\nTo tell your name the livelong day\nTo an admiring bog!\n";

#[test]
fn case_sensitive() {
    let query = "duct";
    let contents = "\
Rust:
safe, fast, productive.
Pick three.";

    assert_eq!(vec!["safe, fast, productive."], search(query, contents));
}

#[test]
fn case_insensitive() {
    let query = "rUsT";
    let contents = "\
Rust:
safe, fast, productive.
Pick three.
Trust me.";

    assert_eq!(
        vec!["Rust:", "Trust me."],
        search_case_insensitive(query, contents)
    );
}

#[test]
fn case_sensitive_search_minds_case() {
    let contents = "Rust:\nsafe, fast, productive.\nPick three.\nTrust me.";
    assert_eq!(search("rUsT", contents), Vec::<&str>::new());
    assert_eq!(search("rust", contents), vec!["Trust me."]);
    assert_eq!(search("Rust", contents), vec!["Rust:"]);
}

#[test]
fn empty_contents_give_no_lines() {
    assert_eq!(search("duct", ""), Vec::<&str>::new());
    assert_eq!(search("", ""), Vec::<&str>::new());
    assert_eq!(search_case_insensitive("duct", ""), Vec::<&str>::new());
    assert_eq!(search_case_insensitive("", ""), Vec::<&str>::new());
}

#[test]
fn no_match_gives_no_lines() {
    assert_eq!(search("monomorphization", POEM), Vec::<&str>::new());
    assert_eq!(search_case_insensitive("MONOMORPHIZATION", POEM), Vec::<&str>::new());
}

#[test]
fn empty_query_gives_every_line() {
    let all: Vec<&str> = POEM.lines().collect();
    assert_eq!(all.len(), 9);
    assert_eq!(search("", POEM), all);
    assert_eq!(search_case_insensitive("", POEM), all);
    assert_eq!(search("", "\n\nx\n"), vec!["", "", "x"]);
}

#[test]
fn matches_come_in_the_order_of_the_text() {
    assert_eq!(
        search("body", POEM),
        vec!["I'm nobody! Who are you?", "Are you nobody, too?", "How dreary to be somebody!"]
    );
    assert_eq!(
        search_case_insensitive("to", POEM),
        vec![
            "Are you nobody, too?",
            "How dreary to be somebody!",
            "To tell your name the livelong day",
            "To an admiring bog!",
        ]
    );
    assert_eq!(search("to", POEM), vec!["Are you nobody, too?", "How dreary to be somebody!"]);
}

#[test]
fn equal_lines_are_returned_as_often_as_they_stand() {
    assert_eq!(search("a", "ab\nxy\nab\nab\n"), vec!["ab", "ab", "ab"]);
    assert_eq!(search_case_insensitive("A", "ab\nxy\nab\n"), vec!["ab", "ab"]);
}

#[test]
fn every_returned_line_holds_the_query() {
    for query in ["o", "you", "!", " ", "How", "no such thing"] {
        for line in search(query, POEM) {
            assert!(line.contains(query));
        }
    }
}

#[test]
fn returned_lines_are_a_subsequence_of_the_lines() {
    let all: Vec<&str> = POEM.lines().collect();
    for query in ["", "o", "you", "T", "us"] {
        for found in [search(query, POEM), search_case_insensitive(query, POEM)] {
            let mut from = 0;
            for line in found {
                let at = all[from..].iter().position(|l| *l == line);
                assert!(at.is_some());
                from += at.unwrap() + 1;
            }
        }
    }
}

#[test]
fn ignoring_case_finds_what_minding_case_finds() {
    for query in ["", "o", "you", "T", "How", "us", "bog!"] {
        let wide = search_case_insensitive(query, POEM);
        for line in search(query, POEM) {
            assert!(wide.contains(&line));
        }
    }
}

#[test]
fn returned_lines_keep_their_spelling() {
    assert_eq!(search_case_insensitive("pick", "Rust:\nPICK three.\n"), vec!["PICK three."]);
}

#[test]
fn returned_lines_are_parts_of_the_contents() {
    let contents = String::from("one\ntwo\nthree\n");
    let found = search("t", &contents);
    assert_eq!(found, vec!["two", "three"]);
    let start = contents.as_ptr() as usize;
    assert_eq!(found[0].as_ptr() as usize, start + 4);
    assert_eq!(found[1].as_ptr() as usize, start + 8);
}

#[test]
fn lines_end_at_line_feeds_with_or_without_carriage_return() {
    assert_eq!(search("", "a\r\nb\nc\r\n"), vec!["a", "b", "c"]);
    assert_eq!(search("b", "a\r\nb\r\nc"), vec!["b"]);
    assert_eq!(search("\r", "a\r\nb\rc\nd\r"), vec!["b\rc", "d\r"]);
}

#[test]
fn queries_beyond_ascii_are_found() {
    let contents = "Grüße aus Köln\nגשם\n雨が降る\nrain 🌧 falls\n";
    assert_eq!(search("üß", contents), vec!["Grüße aus Köln"]);
    assert_eq!(search("が", contents), vec!["雨が降る"]);
    assert_eq!(search("🌧", contents), vec!["rain 🌧 falls"]);
    assert_eq!(search("ö", contents), vec!["Grüße aus Köln"]);
    assert_eq!(search("o", contents), Vec::<&str>::new());
}

#[test]
fn lowering_goes_beyond_ascii() {
    let contents = "ÄPFEL und Birnen\nÉcole\nstraße\n";
    assert_eq!(search_case_insensitive("äpfel", contents), vec!["ÄPFEL und Birnen"]);
    assert_eq!(search_case_insensitive("éCOLE", contents), vec!["École"]);
    assert_eq!(search("äpfel", contents), Vec::<&str>::new());
}

#[test]
fn lowering_a_whole_string_minds_the_final_sigma() {
    // At the end of a word the capital sigma becomes the final small sigma,
    // inside a word the other one: the query, lowered alone, is no longer
    // part of the lowered line.
    let query = "ΑΣ";
    let contents = "ΑΣΑ";
    assert_eq!(search(query, contents), vec!["ΑΣΑ"]);
    assert_eq!(search_case_insensitive(query, contents), Vec::<&str>::new());
    assert_eq!(search_case_insensitive("ΑΣ", "ΟΔΟΣ ΑΣ"), vec!["ΟΔΟΣ ΑΣ"]);
}
