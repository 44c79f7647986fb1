use playground::anagram::{anagrams_for, norm};
use playground::cowsay::callout;
use playground::pig_latin::{translate, translate_word};
use playground::protein_translation::parse;
use playground::sieve::primes_up_to;
use playground::text::words;
use playground::waf::{parse_header, parse_request_line, HttpError, Route, Router};
use playground::wc::count;

#[test]
fn test_count() {
    assert_eq!(count("hello world"), (1, 2, 11));
    assert_eq!(count("a b c"), (1, 3, 5));
    assert_eq!(count(" a b c "), (1, 3, 7));
    assert_eq!(count("a\nb\nc"), (3, 3, 5));
    assert_eq!(count("\na\nb\nc\n"), (4, 3, 7));
}

#[test]
fn count_of_edge_cases() {
    assert_eq!(count(""), (0, 0, 0));
    assert_eq!(count("\n"), (1, 0, 1));
    assert_eq!(count("a\r\nb"), (2, 2, 4));
    assert_eq!(count("a\rb\r"), (1, 2, 4));
    assert_eq!(count("\u{e9}t\u{e9} \u{3000}x"), (1, 2, 10));
}

#[test]
fn sieve_finds_the_primes() {
    assert_eq!(primes_up_to(0), Vec::<u64>::new());
    assert_eq!(primes_up_to(1), Vec::<u64>::new());
    assert_eq!(primes_up_to(2), vec![2]);
    assert_eq!(primes_up_to(3), vec![2, 3]);
    assert_eq!(primes_up_to(10), vec![2, 3, 5, 7]);
    assert_eq!(primes_up_to(13), vec![2, 3, 5, 7, 11, 13]);
    assert_eq!(primes_up_to(1000).len(), 168);
    assert_eq!(primes_up_to(1000).last(), Some(&997));
}

#[test]
fn words_are_split_at_white_space() {
    assert_eq!(words(""), Vec::<String>::new());
    assert_eq!(words("  \t\n"), Vec::<String>::new());
    assert_eq!(words(" quick  brown\tfox\n"), vec!["quick", "brown", "fox"]);
    assert_eq!(words("one"), vec!["one"]);
}

#[test]
fn pig_latin_rules() {
    assert_eq!(translate_word("apple"), "appleay");
    assert_eq!(translate_word("xray"), "xrayay");
    assert_eq!(translate_word("yttria"), "yttriaay");
    assert_eq!(translate_word("pig"), "igpay");
    assert_eq!(translate_word("chair"), "airchay");
    assert_eq!(translate_word("queen"), "eenquay");
    assert_eq!(translate_word("square"), "aresquay");
    assert_eq!(translate_word("rhythm"), "ythmrhay");
    assert_eq!(translate_word("my"), "ymay");
    assert_eq!(translate_word("a"), "a");
    assert_eq!(translate_word("123"), "123");
    assert_eq!(translate_word(""), "");
}

#[test]
fn pig_latin_sentences() {
    assert_eq!(translate("quick fast run"), "ickquay astfay unray");
    assert_eq!(translate("  the   apple "), "ethay appleay");
    assert_eq!(translate(""), "");
}

#[test]
fn proteins_are_named() {
    let info = parse(vec![
        ("AUG", "methionine"),
        ("UUU", "phenylalanine"),
        ("UGG", "tryptophan"),
        ("UAA", "stop codon"),
        ("UUU", "phenylalanine again"),
    ]);
    assert_eq!(info.name_for("AUG"), Some("methionine"));
    assert_eq!(info.name_for("UUU"), Some("phenylalanine again"));
    assert_eq!(info.name_for("GGG"), None);
    assert_eq!(info.of_rna("AUGUGG"), Some(vec!["methionine", "tryptophan"]));
    assert_eq!(info.of_rna("AUGUAAUGG"), Some(vec!["methionine"]));
    assert_eq!(info.of_rna("AUGGGGUGG"), Some(vec!["methionine"]));
    assert_eq!(info.of_rna("AUGUG"), Some(vec!["methionine"]));
    assert_eq!(info.of_rna("UAAAUG"), None);
    assert_eq!(info.of_rna(""), None);
    assert_eq!(info.of_rna("AU"), None);
}

#[test]
fn anagrams_are_found() {
    assert_eq!(norm("Listen"), vec!['e', 'i', 'l', 'n', 's', 't']);
    assert_eq!(norm(""), Vec::<char>::new());
    assert_eq!(
        anagrams_for("listen", &["enlists", "google", "inlets", "banana", "Silent", "LISTEN", "inlets"]),
        vec!["inlets", "Silent"]
    );
    assert_eq!(anagrams_for("go", &["go", "Go", "GO"]), Vec::<&str>::new());
    assert_eq!(anagrams_for("ab", &[]), Vec::<&str>::new());
}

#[test]
fn callout_is_as_wide_as_the_text() {
    assert_eq!(callout("moo"), vec!["  ___", "< moo >", "  ---"]);
    assert_eq!(callout(""), vec!["  ", "<  >", "  "]);
    assert_eq!(callout("\u{725b}"), vec!["  __", "< \u{725b} >", "  --"]);
}

#[test]
fn request_lines() {
    assert_eq!(
        parse_request_line("GET /index.html HTTP/1.1\r\n"),
        Ok(("GET".to_string(), "/index.html".to_string(), "HTTP/1.1".to_string()))
    );
    assert_eq!(
        parse_request_line("GET  HTTP/1.1"),
        Ok(("GET".to_string(), "".to_string(), "HTTP/1.1".to_string()))
    );
    assert_eq!(parse_request_line("GET /"), Err(HttpError::BadRequestLine));
    assert_eq!(parse_request_line("GET / HTTP/1.1 x"), Err(HttpError::BadRequestLine));
    assert_eq!(parse_request_line(""), Err(HttpError::BadRequestLine));
    assert_eq!(parse_request_line(" GET /"), Ok(("".to_string(), "GET".to_string(), "/".to_string())));
}

#[test]
fn header_lines() {
    assert_eq!(
        parse_header("Content-Type: text/html; charset=UTF-8\r\n"),
        Ok(("Content-Type".to_string(), "text/html; charset=UTF-8".to_string()))
    );
    assert_eq!(parse_header(" Host :localhost:8080 "), Ok(("Host".to_string(), "localhost:8080".to_string())));
    assert_eq!(parse_header(":"), Ok(("".to_string(), "".to_string())));
    assert_eq!(parse_header("no colon"), Err(HttpError::BadHeader));
}

#[test]
fn routes_are_found() {
    let mut router = Router::new();
    assert!(matches!(router.get_handler("GET", "/"), Route::NotFound));
    router.add_handler("GET", "/", 1);
    router.add_handler("POST", "/json", 2);
    router.add_handler("GET", "/", 3);
    assert!(matches!(router.get_handler("GET", "/"), Route::Handler(&3)));
    assert!(matches!(router.get_handler("POST", "/json"), Route::Handler(&2)));
    assert!(matches!(router.get_handler("GET", "/json"), Route::MethodNotAllowed));
    assert!(matches!(router.get_handler("GET", "/none"), Route::NotFound));
}
