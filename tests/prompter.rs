use prompter::code::{filter_potential, match_codes, rank_words};
use prompter::constraint::{check_word, read_feedback, Constraint, ConstraintSet, InputError};
use prompter::game::{after_feedback, simulate, Outcome, ROUND_NUM, WORD_LEN};
use prompter::word::Word;
use prompter::wordlist::Wordlist;

fn word(s: &str) -> Word {
    Word::new(s)
}

fn list(words: &[&str]) -> Wordlist {
    Wordlist::from_words(words.iter().map(|w| Word::new(w)).collect())
}

fn texts(wordlist: &Wordlist) -> Vec<String> {
    wordlist.iter().iter().map(|w| w.text()).collect()
}

fn ranked(pairs: &[(Word, usize)]) -> Vec<(String, usize)> {
    pairs.iter().map(|(w, s)| (w.text(), *s)).collect()
}

fn check_is_match(input: &str, code: &str, target: &str, is_match: bool) {
    let constraint_set = ConstraintSet::try_from((input, code)).unwrap();
    assert_eq!(constraint_set.is_match(&Word::new(target)), is_match);
}

#[test]
fn is_match_words_all_hits() {
    check_is_match("words", "GGGGG", "words", true);
}

#[test]
fn is_match_abcde_all_misses() {
    check_is_match("abcde", "_____", "fghij", true);
}

#[test]
fn is_match_choir() {
    check_is_match("choir", "____Y", "wrung", true);
}

#[test]
fn is_match_child() {
    check_is_match("child", "_YYY_", "light", true);
}

#[test]
fn is_match_stole() {
    check_is_match("stole", "YYG_G", "those", true);
}

#[test]
fn is_match_raise_moist() {
    check_is_match("raise", "__GG_", "moist", true);
}

#[test]
fn is_match_slate() {
    check_is_match("slate", "_GYYY", "pleat", true);
}

#[test]
fn is_match_blast() {
    check_is_match("blast", "_GY_G", "aloft", true);
}

#[test]
fn is_match_raise_elder() {
    check_is_match("raise", "Y___Y", "elder", true);
}

#[test]
fn is_match_brink() {
    check_is_match("brink", "YYYY_", "robin", true);
}

#[test]
fn is_match_phase() {
    check_is_match("phase", "_GGYG", "shake", true);
}

#[test]
fn is_match_armor() {
    check_is_match("armor", "GGYY_", "aroma", true);
}

#[test]
fn is_match_canal() {
    check_is_match("canal", "GG__Y", "caulk", true);
}

#[test]
fn is_match_robot() {
    check_is_match("robot", "YY__Y", "thorn", true);
}

#[test]
fn is_match_nylon() {
    check_is_match("nylon", "___YG", "thorn", true);
}

#[test]
fn is_match_tacit() {
    check_is_match("tacit", "G____", "thorn", true);
}

#[test]
fn is_match_crate_rejects_haste() {
    check_is_match("crate", "__YG_", "haste", false);
}

#[test]
fn match_code_crate_space() {
    let w1 = word("crate");
    let w2 = word("space");
    assert_eq!(w1.match_code(&w2), "Y_G_G");
    assert_eq!(w2.match_code(&w1), "__GYG");
}

#[test]
fn word_accessors() {
    let w = word("crate");
    assert!(w.contains('r'));
    assert!(!w.contains('z'));
    assert_eq!(w.char(0), 'c');
    assert_eq!(w.char(4), 'e');
    assert_eq!(w.chars(), vec!['c', 'r', 'a', 't', 'e']);
    assert_eq!(w.len(), 5);
    assert_eq!(w.text(), "crate");
}

#[test]
fn reflexive_feedback_is_all_hits() {
    for w in ["words", "speed", "aaaaa", "crate"] {
        let w = word(w);
        let code = w.match_code(&w);
        assert_eq!(code, "GGGGG");
        let cs = ConstraintSet::from_feedback(&w.text(), &code).unwrap();
        assert!(cs.correct_word());
    }
}

#[test]
fn secret_survives_its_own_feedback() {
    let pool = ["crate", "space", "speed", "dance", "eerie", "thorn", "robot"];
    for g in pool {
        for s in pool {
            let code = word(g).match_code(&word(s));
            let cs = ConstraintSet::from_feedback(g, &code).unwrap();
            assert!(cs.is_match(&word(s)), "{} against {}", g, s);
        }
    }
}

#[test]
fn filter_shrinks_and_settles() {
    let words = ["crate", "space", "trace", "slate", "house", "mouse"];
    let cs = ConstraintSet::try_from(("crane", "GGG_G")).unwrap();
    let once = list(&words).filter(&cs);
    assert!(once.len() <= words.len());
    assert_eq!(texts(&once), vec!["crate".to_string()]);
    let cs_again = ConstraintSet::try_from(("crane", "GGG_G")).unwrap();
    let twice = list(&words).filter(&cs).filter(&cs_again);
    assert_eq!(texts(&twice), texts(&once));
}

#[test]
fn duplicate_letter_speed_dance() {
    assert_eq!(word("speed").match_code(&word("dance")), "__YYY");
    let cs = ConstraintSet::try_from(("speed", "__YYY")).unwrap();
    assert!(cs.is_match(&word("dance")));
    let strict = ConstraintSet::try_from(("speed", "__Y_Y")).unwrap();
    assert!(strict.is_match(&word("dance")));
    assert_eq!(
        strict.iter().to_vec(),
        vec![
            Constraint::Absent('s'),
            Constraint::Absent('p'),
            Constraint::NotAtPos(2, 'e'),
            Constraint::Absent('e'),
            Constraint::NotAtPos(4, 'd'),
        ]
    );
    assert!(!strict.is_match(&word("spade")));
}

#[test]
fn exact_match_scenario() {
    let pool = list(&["words"]);
    let code = word("words").match_code(&word("words"));
    assert_eq!(code, "GGGGG");
    let cs = ConstraintSet::try_from(("words", code.as_str())).unwrap();
    assert!(cs.correct_word());
    assert_eq!(texts(&pool.filter(&cs)), vec!["words".to_string()]);
}

#[test]
fn filtering_scenario() {
    let pool = list(&["abcde", "fghij"]);
    let code = word("abcde").match_code(&word("fghij"));
    assert_eq!(code, "_____");
    let cs = ConstraintSet::try_from(("abcde", code.as_str())).unwrap();
    assert!(!cs.correct_word());
    assert_eq!(texts(&pool.filter(&cs)), vec!["fghij".to_string()]);
}

#[test]
fn ranking_is_deterministic() {
    let pool = list(&["crate", "space", "trace", "slate", "house", "mouse"]);
    let first = ranked(&pool.rank_words());
    let second = ranked(&pool.rank_words());
    assert_eq!(first, second);
    assert_eq!(
        first,
        vec![
            ("crate".to_string(), 5),
            ("space".to_string(), 5),
            ("trace".to_string(), 5),
            ("slate".to_string(), 5),
            ("house".to_string(), 4),
            ("mouse".to_string(), 4),
        ]
    );
}

#[test]
fn ranking_orders_by_score_then_position() {
    let pool = list(&["house", "crate", "mouse", "space"]);
    assert_eq!(
        ranked(&pool.rank_words()),
        vec![
            ("house".to_string(), 4),
            ("mouse".to_string(), 4),
            ("crate".to_string(), 3),
            ("space".to_string(), 3),
        ]
    );
    assert_eq!(pool.ranking(), vec![(0, 4), (2, 4), (1, 3), (3, 3)]);
}

#[test]
fn contradictory_feedback_empties_pool() {
    let pool = list(&["abcde", "fghij"]);
    let cs = ConstraintSet::try_from(("abcde", "YYYYY")).unwrap();
    let left = pool.filter(&cs);
    assert!(left.is_empty());
    assert_eq!(left.len(), 0);
}

#[test]
fn filter_potential_counts_distinct_codes() {
    let pool = list(&["aaaaa", "abcde", "fghij"]);
    assert_eq!(word("aaaaa").filter_potential(&pool), 3);
    assert_eq!(word("fghij").filter_potential(&pool), 2);
    assert_eq!(filter_potential(&word("abcde"), &pool), 3);
    assert_eq!(word("zzzzz").filter_potential(&list(&[])), 0);
}

#[test]
fn filter_potential_of_long_words() {
    let long_a = "a".repeat(33);
    let long_b = format!("{}b", "a".repeat(32));
    let long_c = "c".repeat(33);
    let pool = list(&[long_a.as_str(), long_b.as_str(), long_c.as_str()]);
    assert_eq!(word(&long_a).filter_potential(&pool), 3);
    assert_eq!(word(&long_c).filter_potential(&pool), 2);
    assert_eq!(filter_potential(&word(&long_a), &pool), 3);
    assert_eq!(filter_potential(&word(&long_c), &pool), 2);
}

#[test]
fn invalid_color_code_is_reported() {
    match ConstraintSet::try_from(("crate", "GGXGG")) {
        Err(InputError::InvalidColorCode(c)) => assert_eq!(c, 'X'),
        other => panic!("unexpected {:?}", other),
    }
    match ConstraintSet::from_feedback("crate", "GG-GB") {
        Err(InputError::InvalidColorCode(c)) => assert_eq!(c, '-'),
        other => panic!("unexpected {:?}", other),
    }
}

#[test]
fn try_from_ignores_case() {
    let cs = ConstraintSet::try_from(("CRATE", "gy_Gg")).unwrap();
    assert_eq!(
        cs.iter().to_vec(),
        vec![
            Constraint::AtPos(0, 'c'),
            Constraint::NotAtPos(1, 'r'),
            Constraint::Absent('a'),
            Constraint::AtPos(3, 't'),
            Constraint::AtPos(4, 'e'),
        ]
    );
    assert!(ConstraintSet::from_feedback("crate", "gy_gg").is_err());
}

#[test]
fn lengths_are_checked() {
    assert_eq!(check_word("crate", WORD_LEN), Ok(()));
    assert_eq!(check_word("crates", WORD_LEN), Err(InputError::IncorrectWordLength(5)));
    match read_feedback("crate", "GGG", WORD_LEN) {
        Err(InputError::IncorrectColorCodeLength(n)) => assert_eq!(n, 5),
        other => panic!("unexpected {:?}", other),
    }
    assert!(read_feedback("crate", "ggggg", WORD_LEN).unwrap().correct_word());
}

#[test]
fn load_reads_lines_in_lower_case() {
    let pool = Wordlist::load("Crate\r\nSPACE\n\ntrace\n");
    assert_eq!(texts(&pool), vec!["crate", "space", "trace"]);
    let raw = Wordlist::from_text("Crate\nhouse");
    assert_eq!(texts(&raw), vec!["Crate", "house"]);
    assert!(Wordlist::load("").is_empty());
}

#[test]
fn remove_takes_out_first_copy() {
    let mut pool = list(&["crate", "space", "crate"]);
    pool.remove("crate");
    assert_eq!(texts(&pool), vec!["space", "crate"]);
    pool.remove("house");
    assert_eq!(texts(&pool), vec!["space", "crate"]);
    assert_eq!(texts(&pool.duplicate()), vec!["space", "crate"]);
}

#[test]
fn two_sided_codes() {
    let (a, b) = match_codes(&word("crate"), &word("space"));
    assert_eq!(a, "YBGBG");
    assert_eq!(b, "BBGYG");
    let (a, b) = match_codes(&word("robot"), &word("thorn"));
    assert_eq!(a, "YYBYY");
    assert_eq!(b, "YBYYB");
}

#[test]
fn sorted_count_ranking_scores_against_pool() {
    let pool = list(&["aaaaa", "abcde", "fghij"]);
    assert_eq!(
        ranked(&rank_words(&pool)),
        vec![("aaaaa".to_string(), 3), ("abcde".to_string(), 3), ("fghij".to_string(), 2)]
    );
    assert_eq!(ranked(&rank_words(&list(&["words"]))), vec![("words".to_string(), 1)]);
    assert!(rank_words(&list(&[])).is_empty());
    let pool = list(&["house", "crate", "mouse", "space"]);
    assert_eq!(ranked(&rank_words(&pool)), ranked(&pool.rank_words()));
}

#[test]
fn round_decisions() {
    let pool = list(&["crate", "space", "trace"]);
    let won = ConstraintSet::try_from(("crate", "GGGGG")).unwrap();
    let (kept, outcome) = after_feedback(pool, "crate", &won, 1, ROUND_NUM);
    assert_eq!(outcome, Outcome::Won);
    assert_eq!(kept.len(), 3);

    let cs = ConstraintSet::try_from(("crate", "YGGYG")).unwrap();
    let (left, outcome) = after_feedback(kept, "crate", &cs, 1, ROUND_NUM);
    assert_eq!(outcome, Outcome::Continue);
    assert_eq!(texts(&left), vec!["trace"]);

    let pool = list(&["house", "mouse", "louse"]);
    let cs = ConstraintSet::try_from(("douse", "_GGGG")).unwrap();
    let (left, outcome) = after_feedback(pool, "douse", &cs, ROUND_NUM, ROUND_NUM);
    assert_eq!(outcome, Outcome::Lost);
    assert_eq!(left.len(), 3);

    let pool = list(&["abcde", "fghij"]);
    let cs = ConstraintSet::try_from(("abcde", "YYYYY")).unwrap();
    let (left, outcome) = after_feedback(pool, "abcde", &cs, 2, ROUND_NUM);
    assert_eq!(outcome, Outcome::NoCandidates);
    assert!(left.is_empty());
}

#[test]
fn simulated_games() {
    let pool = list(&["crate", "space", "trace", "slate", "house", "mouse"]);
    assert_eq!(simulate(&pool, &word("crate"), &word("crate"), ROUND_NUM), Some(1));
    assert_eq!(simulate(&pool, &word("house"), &word("trace"), ROUND_NUM), Some(3));
    assert_eq!(simulate(&pool, &word("house"), &word("trace"), 1), None);
    assert_eq!(simulate(&pool, &word("house"), &word("mouse"), ROUND_NUM), Some(2));
    assert_eq!(simulate(&pool, &word("space"), &word("mouse"), 2), None);
    assert_eq!(simulate(&pool, &word("zzzzz"), &word("crate"), ROUND_NUM), Some(2));
    assert_eq!(simulate(&list(&[]), &word("crate"), &word("crate"), ROUND_NUM), Some(1));
    assert_eq!(simulate(&list(&[]), &word("crate"), &word("space"), ROUND_NUM), None);
}
