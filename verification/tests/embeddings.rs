use codescratch::embeddings::like_pattern;
use codescratch::embeddings::{
    char_trigrams, doc_for, fnv1a, sanitize_fts_query, signed_buckets, tokenize_doc, tokens, DIM,
};

#[test]
fn tokenizer_splits_camel_and_snake_case() {
    assert_eq!(tokens("getUserById"), vec!["get", "user", "by", "id"]);
    assert_eq!(tokens("user_id"), vec!["user", "id"]);
    assert_eq!(tokens("parse-config"), vec!["parse", "config"]);
}

#[test]
fn tokenizer_keeps_digits_with_the_word_and_splits_after_them() {
    assert_eq!(tokens("v2Parser"), vec!["v2", "parser"]);
    assert_eq!(tokens("HTTPServer"), vec!["httpserver"]);
    assert_eq!(tokens(""), Vec::<String>::new());
    assert_eq!(tokens("  --  "), Vec::<String>::new());
}

#[test]
fn fnv1a_matches_the_reference_values() {
    assert_eq!(fnv1a(""), 0xcbf29ce484222325);
    assert_eq!(fnv1a("a"), 0xaf63dc4c8601ec8c);
    assert_eq!(fnv1a("foobar"), 0x85944171f73967e8);
}

#[test]
fn trigrams_of_lowercased_alphanumerics() {
    assert_eq!(char_trigrams("getUser"), vec!["get", "etu", "tus", "use", "ser"]);
    assert_eq!(char_trigrams("a_b-C"), vec!["abc"]);
    assert!(char_trigrams("ab").is_empty());
}

#[test]
fn tokenize_doc_adds_trigrams_of_the_first_word() {
    let t = tokenize_doc("getUser getUser() src/u.ts");
    assert_eq!(
        t,
        vec![
            "get", "user", "get", "user", "src", "u", "ts", "get", "etu", "tus", "use", "ser"
        ]
    );
}

#[test]
fn doc_for_joins_fields_with_spaces() {
    assert_eq!(doc_for("f", "A.f", "f()", "src/a.ts"), "f A.f f() src/a.ts");
}

#[test]
fn sanitize_strips_fts_operators() {
    assert_eq!(sanitize_fts_query("foo-bar \"baz\"*"), "foo bar baz");
    assert_eq!(sanitize_fts_query("  (a:b)^  "), "a b");
    assert_eq!(sanitize_fts_query("***"), "");
}

#[test]
fn signed_buckets_are_deterministic_and_count_every_token() {
    let a = signed_buckets("getUserById getUserById() src/users.ts");
    let b = signed_buckets("getUserById getUserById() src/users.ts");
    assert_eq!(a, b);
    assert_eq!(a.len(), DIM);
    let toks = tokenize_doc("getUserById getUserById() src/users.ts");
    let total: i128 = a.iter().map(|x| x.abs()).sum();
    assert!(total <= toks.len() as i128);
    assert_eq!(total % 2, (toks.len() as i128) % 2);
}

#[test]
fn signed_buckets_of_empty_doc_is_all_zero() {
    let v = signed_buckets("");
    assert!(v.iter().all(|x| *x == 0));
}

#[test]
fn single_token_votes_into_its_hash_bucket() {
    let v = signed_buckets("ab");
    let b = (fnv1a("ab") % DIM as u64) as usize;
    let sign = if fnv1a("ab#sign") & 1 == 0 { 1 } else { -1 };
    for (i, x) in v.iter().enumerate() {
        if i == b {
            assert_eq!(*x, sign);
        } else {
            assert_eq!(*x, 0);
        }
    }
}

#[test]
fn like_pattern_drops_wildcards_and_wraps_the_query() {
    assert_eq!(like_pattern("get_user%"), "%getuser%");
    assert_eq!(like_pattern(""), "%%");
}
