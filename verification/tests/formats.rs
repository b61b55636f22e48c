//! Texts, numbers and files.

use cemantix_core::bench::{secret_pool, Rng, Tally};
use cemantix_core::bin::{parse_bin, parse_header, BinError};
use cemantix_core::bytes::{bytes_to_f32, f32_to_bytes};
use cemantix_core::checks::{
    check_scores, find_rank, judge_report, lookup_neighbours, report_line, summarise_alphas,
    RankCheck, ReportNumbers,
};
use cemantix_core::engine::{build_vectors, rank_model_from, Engine, EngineError};
use cemantix_core::events::{
    emoji, emoji_rank, event_lines, score_text, Event, ScoreNumbers,
};
use cemantix_core::f16::{from_f32, to_f32};
use cemantix_core::flags::{collect_first, collect_set, count_set};
use cemantix_core::game::{game_scoring, GameResult, OptionError};
use cemantix_core::guess::Gauge;
use cemantix_core::ieee::{Double, Single};
use cemantix_core::model::{
    attach_ranks, cache_is_current, cache_to_read, export_metadata, export_sample,
    export_tol_level, export_words, is_complete, load_full, load_half, opener_file, opener_probes,
    opener_word, progress, rank_cache_is_current, rank_levels, rank_openers, read_metadata,
    words_file, Cache, LoadError, Metadata,
};
use cemantix_core::order::{
    order_by_similarity, rank_by, select_largest, sort_doubles, sort_ints,
};
use cemantix_core::partition::{Entropy, RankSlot, Weight};
use cemantix_core::ranks::{RankPlace, RankScale, RankTable, Segment};
use cemantix_core::scoring::{Evidence, RankModel, Scoring};
use cemantix_core::session::{
    ask_again, first_guesses, forced_words, read_start, read_word, seat, split_report, start_for,
    Seat, SeatError, Start,
};
use cemantix_core::site::{
    after_attempt, parse_home, pause_ms, read_nearby, read_score, retry_delay, strip_tags,
    yesterday_is_readable, HomeError, NearbyError, Neighbour, RawNeighbour, RawScore, Retry,
    ScoreResp, ATTEMPTS,
};
use cemantix_core::text::{
    char_list, find, join, lines, pad_left, pad_right, parse_number, trim, write_decimal,
};
use cemantix_core::vectors::{Vectors, PRIOR_RANK};
use cemantix_core::words::is_plausible_word;

fn single(x: f32) -> Single {
    Single { bits: x.to_bits() }
}

fn double(x: f64) -> Double {
    Double { bits: x.to_bits() }
}

fn f32_of(x: Single) -> f32 {
    f32::from_bits(x.bits)
}

fn f64_of(x: Double) -> f64 {
    f64::from_bits(x.bits)
}

fn strings(v: &[&str]) -> Vec<String> {
    v.iter().map(|s| s.to_string()).collect()
}

fn text(v: &[char]) -> String {
    v.iter().collect()
}

#[test]
fn roundtrip_is_accurate() {
    let there_and_back = |x: f32| f32_of(to_f32(from_f32(single(x))));
    for i in -20000..20000 {
        let x = i as f32 / 20000.0 * 0.4;
        let y = there_and_back(x);
        assert!((x - y).abs() <= x.abs() * 1e-3 + 1e-7, "{x} -> {y}");
    }
    assert_eq!(there_and_back(0.0), 0.0);
    assert_eq!(there_and_back(1.0), 1.0);
    assert_eq!(there_and_back(-0.5), -0.5);
}

#[test]
fn halves_are_widened_exactly() {
    assert_eq!(f32_of(to_f32(0x3c00)), 1.0);
    assert_eq!(f32_of(to_f32(0xc000)), -2.0);
    assert_eq!(f32_of(to_f32(0x0001)), 2f32.powi(-24));
    assert_eq!(f32_of(to_f32(0x7bff)), 65504.0);
    assert_eq!(f32_of(to_f32(0xfc00)), f32::NEG_INFINITY);
    assert!(f32_of(to_f32(0x7e00)).is_nan());
    for h in 0..=u16::MAX {
        if h % 0x8000 <= 0x7c00 {
            assert_eq!(from_f32(to_f32(h)), h);
        }
    }
}

#[test]
fn halves_are_rounded_to_the_nearest_even() {
    // halfway between 1 and the next half is 1 + 2^-11: to the even one
    assert_eq!(from_f32(single(1.0 + 2f32.powi(-11))), 0x3c00);
    assert_eq!(from_f32(single(1.0 + 3.0 * 2f32.powi(-11))), 0x3c02);
    assert_eq!(from_f32(single(1.0 + 2f32.powi(-11) + 2f32.powi(-20))), 0x3c01);
    assert_eq!(from_f32(single(65519.0)), 0x7bff);
    assert_eq!(from_f32(single(65520.0)), 0x7c00);
    assert_eq!(from_f32(single(-1e9)), 0xfc00);
    assert_eq!(from_f32(single(1e-10)), 0);
    assert_eq!(from_f32(single(-0.0)), 0x8000);
}

#[test]
fn comparisons_are_those_of_the_numbers() {
    let xs = [
        f64::NEG_INFINITY,
        -2.5,
        -0.0,
        0.0,
        1e-300,
        1.0,
        f64::INFINITY,
        f64::NAN,
    ];
    for &a in &xs {
        for &b in &xs {
            let (x, y) = (double(a), double(b));
            assert_eq!(x.lt(y), a < b);
            assert_eq!(x.le(y), a <= b);
            assert_eq!(x.total_key() < y.total_key(), a.total_cmp(&b).is_lt());
            if a != b && !a.is_nan() && !b.is_nan() {
                assert_eq!(f64_of(x.min(y)), a.min(b));
                assert_eq!(f64_of(x.max(y)), a.max(b));
            }
            let (p, q) = (single(a as f32), single(b as f32));
            assert_eq!(p.lt(q), (a as f32) < b as f32);
            assert_eq!(p.le(q), a as f32 <= b as f32);
        }
        assert_eq!(double(a).is_nan(), a.is_nan());
        assert_eq!(f64_of(double(f64::NAN).min(double(2.0))), 2.0);
        assert_eq!(f64_of(double(2.0).max(double(f64::NAN))), 2.0);
    }
}

#[test]
fn lists_are_sorted() {
    assert_eq!(sort_ints(&vec![3, -7, i32::MAX, i32::MIN, 3]), vec![i32::MIN, -7, 3, 3, i32::MAX]);
    let v: Vec<Double> = [2.5, -1.0, 0.0, -0.0].iter().map(|&x| double(x)).collect();
    let s: Vec<u64> = sort_doubles(&v).iter().map(|d| d.bits).collect();
    let e: Vec<u64> = [-1.0, -0.0, 0.0, 2.5].iter().map(|&x: &f64| x.to_bits()).collect();
    assert_eq!(s, e);
    let sims: Vec<Single> = [0.1, 0.9, 0.9, -0.2].iter().map(|&x| single(x)).collect();
    assert_eq!(order_by_similarity(&sims), vec![1, 2, 0, 3]);
    let top: Vec<f32> = select_largest(&sims, 3).iter().map(|&s| f32_of(s)).collect();
    assert_eq!(top, vec![0.9, 0.9, 0.1]);
    assert_eq!(rank_by(&vec![5, 1, 5, 0]), vec![3, 1, 0, 2]);
}

#[test]
fn flags_are_collected() {
    let f = vec![true, false, true, true, false];
    assert_eq!(collect_set(&f), vec![0, 2, 3]);
    assert_eq!(collect_first(&f, 2), vec![0, 2]);
    assert_eq!(collect_first(&f, 9), vec![0, 2, 3]);
    assert_eq!(count_set(&f), 3);
}

#[test]
fn plausible_words() {
    assert!(is_plausible_word("mot"));
    assert!(is_plausible_word("fantôme"));
    assert!(is_plausible_word("porte-clés"));
    assert!(!is_plausible_word("on"));
    assert!(!is_plausible_word("Paris"));
    assert!(!is_plausible_word("-able"));
    assert!(!is_plausible_word("able-"));
    assert!(!is_plausible_word("mot1"));
    assert!(!is_plausible_word("deux mots"));
    assert!(is_plausible_word("œuf"));
}

#[test]
fn texts_are_cut_and_padded() {
    assert_eq!(text(&trim(&char_list(" \t a b\u{a0}\n"))), "a b");
    assert_eq!(find(&char_list("abcabc"), &char_list("ca"), 0), Some(2));
    assert_eq!(find(&char_list("abcabc"), &char_list("abc"), 1), Some(3));
    assert_eq!(find(&char_list("abc"), &char_list("x"), 0), None);
    assert_eq!(lines(&char_list("a\r\nb\n\nc")), strings(&["a", "b", "", "c"]));
    assert!(lines(&char_list("")).is_empty());
    assert_eq!(write_decimal(0), "0");
    assert_eq!(write_decimal(u64::MAX), "18446744073709551615");
    assert_eq!(parse_number(&char_list("+42")), Some(42));
    assert_eq!(parse_number(&char_list("18446744073709551616")), None);
    assert_eq!(parse_number(&char_list("-1")), None);
    assert_eq!(parse_number(&char_list("+")), None);
    assert_eq!(pad_right("é", 3), "é  ");
    assert_eq!(pad_left("12", 4), "  12");
    assert_eq!(pad_left("12345", 4), "12345");
    assert_eq!(join(&strings(&["a", "b", "c"]), ", "), "a, b, c");
    assert_eq!(join(&vec![], ", "), "");
}

#[test]
fn tags_are_stripped() {
    assert_eq!(strip_tags("  <b>Je ne connais pas</b> <i>x</i> "), "Je ne connais pas x");
    assert_eq!(strip_tags("a > b"), "a  b");
    assert_eq!(strip_tags("<br/>"), "");
}

#[test]
fn home_pages_are_read() {
    let html = "<div data-puzzle-number=\"912\"><a id=\"yesterday\" href=\"#\"><b> pilier </b></a>";
    assert!(yesterday_is_readable(html));
    let home = parse_home(html).ok().unwrap();
    assert_eq!(home.day, 912);
    assert_eq!(home.yesterday, Some("pilier".to_string()));
    let bare = parse_home("data-puzzle-number=\"7\"").ok().unwrap();
    assert_eq!((bare.day, bare.yesterday), (7, None));
    let empty = "data-puzzle-number=\"7\" id=\"yesterday\"> </a>";
    assert_eq!(parse_home(empty).ok().unwrap().yesterday, None);
    assert!(matches!(parse_home("<html>"), Err(HomeError::NoNumber)));
    assert!(matches!(
        parse_home("data-puzzle-number=\"x\""),
        Err(HomeError::BadNumber)
    ));
    assert!(matches!(
        parse_home("data-puzzle-number=\"4294967296\""),
        Err(HomeError::BadNumber)
    ));
    assert!(!yesterday_is_readable("id=\"yesterday\"</a>"));
}

#[test]
fn answers_are_read() {
    let raw = |s: Option<f64>, e: Option<&str>, r: Option<bool>| RawScore {
        s: s.map(double),
        p: Some(12),
        v: Some(3),
        e: e.map(String::from),
        r,
    };
    assert!(matches!(
        read_score(&raw(Some(0.5), Some("<i>inconnu</i>"), Some(true))),
        Some(ScoreResp::Unknown(m)) if m == "inconnu"
    ));
    assert!(matches!(
        read_score(&raw(Some(0.5), None, Some(true))),
        Some(ScoreResp::Closed)
    ));
    let Some(ScoreResp::Score { s, p, solvers }) = read_score(&raw(Some(0.5), None, Some(false)))
    else {
        panic!("this is a score");
    };
    assert_eq!((f64_of(s), p, solvers), (0.5, Some(12), Some(3)));
    assert!(read_score(&raw(None, None, None)).is_none());
    assert_eq!(
        (0..4).map(retry_delay).collect::<Vec<u64>>(),
        vec![500, 1000, 2000, 4000]
    );
}

#[test]
fn neighbours_are_sorted_by_rank() {
    let entry = |w: &str, p: Option<u64>, s: Option<f64>| RawNeighbour {
        word: w.to_string(),
        entry: Some((p, s.map(double))),
    };
    let list = vec![
        entry("b", Some(5), Some(10.5)),
        entry("c", Some(999), Some(40.0)),
        entry("d", Some(5), None),
        entry("e", None, Some(1.0)),
        entry("f", Some((1 << 32) + 7), Some(2.0)),
    ];
    let out = read_nearby(&Some(list)).ok().unwrap();
    let shown: Vec<(String, u32, f64)> = out
        .into_iter()
        .map(|n| (n.word, n.percentile, f64_of(n.degrees)))
        .collect();
    assert_eq!(
        shown,
        vec![
            ("c".to_string(), 999, 40.0),
            ("f".to_string(), 7, 2.0),
            ("b".to_string(), 5, 10.5),
            ("d".to_string(), 5, 0.0),
            ("e".to_string(), 0, 1.0),
        ]
    );
    assert!(matches!(read_nearby(&None), Err(NearbyError::NotAnObject)));
    let bad = vec![RawNeighbour {
        word: "x".to_string(),
        entry: None,
    }];
    assert!(matches!(read_nearby(&Some(bad)), Err(NearbyError::BadEntry)));
}

#[test]
fn dumps_read_back() {
    let v: Vec<Single> = [0.0, -1.5, 3.25e-7, f32::INFINITY, f32::MIN_POSITIVE]
        .iter()
        .map(|&x| single(x))
        .collect();
    let bytes = f32_to_bytes(&v);
    assert_eq!(bytes[4..8], (-1.5f32).to_le_bytes());
    assert_eq!(bytes_to_f32(&bytes), v);
    assert_eq!(bytes_to_f32(&bytes[..7]).len(), 1);
}

fn bin_file(header: &str, words: &[&[u8]], dim: usize) -> Vec<u8> {
    let mut out = header.as_bytes().to_vec();
    for (i, w) in words.iter().enumerate() {
        out.extend_from_slice(w);
        out.push(b' ');
        for k in 0..dim {
            out.extend_from_slice(&(i as f32 + k as f32 / 100.0).to_le_bytes());
        }
        out.push(b'\n');
    }
    out
}

#[test]
fn model_files_are_parsed() {
    let file = bin_file("4 50\n", &[b"mais", b"deux_mots", "\u{e9}t\u{e9}".as_bytes(), b"\xffx"], 50);
    let m = parse_bin(&file).ok().unwrap();
    assert_eq!(m.dim, 50);
    assert_eq!(m.words, strings(&["mais", "été", "\u{fffd}x"]));
    assert_eq!(m.vecs.len(), 150);
    assert_eq!(f32_of(m.vecs[1]), 0.01);
    assert_eq!(f32_of(m.vecs[50]), 2.0);
    assert_eq!(f32_of(m.vecs[149]), 3.0 + 49.0 / 100.0);
}

#[test]
fn broken_model_files_are_refused() {
    let fails = |file: &[u8], e: BinError| {
        assert_eq!(parse_bin(file).err(), Some(e));
    };
    fails(b"", BinError::NoCount);
    fails(b"\xff 50\n", BinError::HeaderText);
    fails(b"x 50\n", BinError::BadCount);
    fails(b"3\n", BinError::NoDim);
    fails(b"3 -50\n", BinError::BadDim);
    fails(b"3 49\n", BinError::Dimension(49));
    fails(b"3 2001\n", BinError::Dimension(2001));
    let file = bin_file("3 50\n", &[b"un", b"deux"], 50);
    fails(&file, BinError::TruncatedVector(2));
    fails(&file[..file.len() - 1], BinError::TruncatedFile(2));
    fails(&file[..file.len() - 2], BinError::TruncatedVector(1));
    assert_eq!(parse_header(b" \t12  300 rest").ok(), Some((12, 300)));
}

#[test]
fn full_models_are_loaded() {
    let raw = f32_to_bytes(&(0..6).map(|i| single(i as f32)).collect());
    let v = load_full("mais\nmétro\n", &raw, Some(" frWac \n"), Some("métro\t12.5\t40\nx\n"))
        .ok()
        .unwrap();
    assert_eq!((v.dim, v.n()), (3, 2));
    assert_eq!(v.name, "frWac");
    assert_eq!(v.opener, Some(1));
    assert_eq!(f32_of(v.vec(1)[2]), 5.0);
    assert_eq!(v.plausible, vec![true, true]);
    assert_eq!(v.lookup("mais"), Some(0));
    assert_eq!(v.lookup("zzz"), None);
    let v = load_full("mais\nmétro\n", &raw, None, None).ok().unwrap();
    assert_eq!((v.name.as_str(), v.opener), ("?", None));
    assert!(matches!(
        load_full("a\nb\nc\nd\n", &raw, None, None),
        Err(LoadError::Size { bytes: 24, words: 4 })
    ));
    assert!(matches!(
        load_full("", &raw, None, None),
        Err(LoadError::Size { bytes: 24, words: 0 })
    ));
    assert_eq!(opener_word("mais\t1"), Some("mais".to_string()));
    assert_eq!(opener_word("mais"), Some("mais".to_string()));
    assert_eq!(opener_word(""), None);
}

#[test]
fn caches_are_chosen() {
    assert_eq!(cache_to_read(true, true), Cache::Full);
    assert_eq!(cache_to_read(true, false), Cache::Full);
    assert_eq!(cache_to_read(false, true), Cache::Compact);
    assert_eq!(cache_to_read(false, false), Cache::Full);
    assert!(rank_cache_is_current(false, true, true));
    assert!(!rank_cache_is_current(true, true, true));
    assert!(!rank_cache_is_current(false, false, true));
    assert!(!rank_cache_is_current(false, true, false));
}

#[test]
fn rank_tables_are_attached() {
    let bare = || small_model();
    let v = attach_ranks(bare(), None, Some("métro\t9.0\t3\n")).ok().unwrap();
    assert!(v.ranks.is_none());
    assert_eq!(v.rank_opener, None);
    let n = bare().plausible_count();
    let levels = rank_levels();
    assert_eq!((levels.len(), levels[0], levels[17]), (18, 1, 2000));
    let mut bytes: Vec<u8> = Vec::new();
    for _ in 0..n * levels.len() {
        bytes.extend_from_slice(&[0x00, 0x3c]);
    }
    let v = attach_ranks(bare(), Some(&bytes), Some("métro\t9.0\t3\nmais\t8.0\t2\n"))
        .ok()
        .unwrap();
    assert_eq!(v.rank_opener, Some(1));
    let t = v.ranks.as_ref().unwrap();
    assert_eq!(t.levels, levels);
    assert_eq!((t.rows(), f32_of(t.sims[0])), (n, 1.0));
    assert_eq!(v.words, bare().words);
    let v = attach_ranks(bare(), Some(&bytes), None).ok().unwrap();
    assert_eq!(v.rank_opener, None);
    bytes.pop();
    assert!(matches!(
        attach_ranks(bare(), Some(&bytes), None),
        Err(LoadError::RankSize)
    ));
}

#[test]
fn exports_are_described() {
    let mut v = small_model();
    v.opener = Some(1);
    let m = export_metadata(&v, double(5e-5));
    assert_eq!((m.n, m.dim, m.tol_level), (v.plausible_count(), 1, 1));
    assert_eq!(m.model, "small");
    assert_eq!(m.opener.as_deref(), Some("métro"));
    assert_eq!((m.rank_levels, m.rank_opener), (None, None));
    assert_eq!((f64_of(m.max_error), m.prior_rank), (5e-5, PRIOR_RANK));
    v.ranks = Some(RankTable {
        levels: vec![1, 2],
        row_of: vec![0, u32::MAX, u32::MAX],
        sims: vec![single(0.5), single(0.25)],
    });
    v.rank_opener = Some(2);
    let m = export_metadata(&v, double(0.0));
    assert_eq!(m.tol_level, 0);
    assert_eq!(m.rank_levels, Some(vec![1, 2]));
    assert_eq!(m.rank_opener.as_deref(), Some("été"));
}

#[test]
fn calls_are_paced_and_repeated() {
    assert_eq!(pause_ms(None, 300), 0);
    assert_eq!(pause_ms(Some(0), 300), 300);
    assert_eq!(pause_ms(Some(120), 300), 180);
    assert_eq!(pause_ms(Some(300), 300), 0);
    assert_eq!(pause_ms(Some(5000), 300), 0);
    assert_eq!(after_attempt(0, true), Retry::Done);
    assert_eq!(after_attempt(ATTEMPTS - 1, true), Retry::Done);
    assert_eq!(after_attempt(0, false), Retry::Again);
    assert_eq!(after_attempt(2, false), Retry::Again);
    assert_eq!(after_attempt(3, false), Retry::GiveUp);
}

#[test]
fn games_are_seated() {
    assert_eq!(seat(&Scoring::cemantix(), false), Ok(Seat::Live));
    assert_eq!(seat(&Scoring::cemantix(), true), Ok(Seat::Offline));
    assert_eq!(seat(&Scoring::quelmot(), true), Ok(Seat::Offline));
    assert_eq!(seat(&Scoring::quelmot(), false), Err(SeatError::Token));
    assert_eq!(
        SeatError::Token.message("quelmot"),
        "l'API de quelmot exige un jeton d'authentification : jouez via la page web, ou hors ligne avec --dry-run <mot>"
    );
}

#[test]
fn the_chosen_word_is_played_first() {
    let chosen = Start::Word(7);
    assert_eq!(first_guesses(&chosen, vec![1, 2]), vec![7, 1, 2]);
    assert_eq!(ask_again(&chosen), None);
    assert_eq!(first_guesses(&Start::Opener, vec![1, 2]), vec![1, 2]);
    assert_eq!(ask_again(&Start::Opener), None);
    assert_eq!(
        ask_again(&Start::Missing("zzz".to_string())).as_deref(),
        Some("« zzz » est absent du modèle, essayez un autre mot")
    );
}

#[test]
fn repeated_words_are_found_where_they_stand_first() {
    let v = Vectors::new(
        "twice".to_string(),
        1,
        strings(&["mot", "autre", "mot"]),
        vec![single(1.0); 3],
        2,
    );
    assert_eq!(v.lookup("mot"), Some(0));
    assert_eq!(v.plausible, vec![true, true, false]);
    assert_eq!(v.plausible_count(), 2);
    assert_eq!(v.plausible_indices(), vec![0, 1]);
}

#[test]
fn compact_models_are_loaded() {
    let meta = read_metadata("{\"dim\": 2, \"model\": \"frWac\", \"opener\": \"mais\", \"n\": 1}")
        .ok()
        .unwrap();
    assert_eq!(meta.dim, 2);
    assert_eq!(meta.model.as_deref(), Some("frWac"));
    let bytes = [0x00, 0x3c, 0x00, 0xc0, 0x00, 0x38, 0x00, 0x00];
    let v = load_half("métro\nmais\n", &bytes, &meta).ok().unwrap();
    assert_eq!(v.name, "frWac (float16)");
    assert_eq!(v.opener, Some(1));
    let row: Vec<f32> = v.vec(0).iter().map(|&x| f32_of(x)).collect();
    assert_eq!(row, vec![1.0, -2.0]);
    assert!(matches!(
        load_half("métro\n", &bytes, &meta),
        Err(LoadError::HalfSize)
    ));
    let bare = Metadata {
        dim: 2,
        model: None,
        opener: None,
    };
    let v = load_half("métro\nmais\n", &bytes, &bare).ok().unwrap();
    assert_eq!((v.name.as_str(), v.opener), ("? (float16)", None));
    assert!(matches!(read_metadata("{"), Err(LoadError::Metadata)));
    assert!(matches!(read_metadata("[1]"), Err(LoadError::NoDim)));
    assert!(matches!(
        read_metadata("{\"dim\": \"2\"}"),
        Err(LoadError::NoDim)
    ));
    let odd = read_metadata("{\"dim\": 3, \"model\": 4}").ok().unwrap();
    assert_eq!((odd.dim, odd.model, odd.opener), (3, None, None));
}

#[test]
fn caches_are_checked_and_written() {
    assert!(cache_is_current(false, Some("frWac\n"), "frWac", true, true));
    assert!(!cache_is_current(true, Some("frWac"), "frWac", true, true));
    assert!(!cache_is_current(false, Some("autre"), "frWac", true, true));
    assert!(!cache_is_current(false, None, "frWac", true, true));
    assert!(!cache_is_current(false, Some("frWac"), "frWac", false, true));
    assert!(!cache_is_current(false, Some("frWac"), "frWac", true, false));
    assert_eq!(words_file(&strings(&["un", "deux"])), "un\ndeux\n");
    assert_eq!(words_file(&vec![]), "\n");
    assert!(is_complete(50_000_001) && !is_complete(50_000_000));
    assert_eq!(progress(10, 100, 0), Some(10));
    assert_eq!(progress(14, 100, 10), None);
    assert_eq!(progress(15, 100, 10), Some(15));
    assert_eq!(progress(15, 0, 0), None);
}

#[test]
fn openers_are_ranked_and_written() {
    let words = strings(&["mais", "Paris", "métro", "pilier"]);
    let probes = opener_probes(&words);
    assert_eq!(probes, vec![0, 2, 3]);
    let weight = |h: f64, b: usize| Weight {
        entropy: Entropy {
            bits: double(h),
            bar: double(h + 1e-9),
        },
        buckets: b,
    };
    let weights = vec![weight(1.5, 4), weight(12.5, 30), weight(12.5, 31)];
    let order = rank_openers(&weights);
    assert_eq!(order, vec![1, 2, 0]);
    let shown = strings(&["1.5000", "12.5000", "12.5000"]);
    let file = opener_file(&words, &probes, &order, &shown, &weights);
    assert_eq!(file, "métro\t12.5000\t30\npilier\t12.5000\t31\nmais\t1.5000\t4\n");
    assert_eq!(opener_word(&file), Some("métro".to_string()));
}

#[test]
fn exports_hold_the_plausible_words() {
    let v = Vectors::new(
        "small".to_string(),
        2,
        strings(&["mais", "Paris", "métro"]),
        [1.0, 0.5, 9.0, 9.0, -2.0, 0.0].iter().map(|&x| single(x)).collect(),
        PRIOR_RANK,
    );
    let (words, bytes) = export_words(&v);
    assert_eq!(words, "mais\nmétro\n");
    assert_eq!(bytes, vec![0x00, 0x3c, 0x00, 0x38, 0x00, 0xc0, 0x00, 0x00]);
    assert_eq!(export_sample(3), vec![0, 1, 2]);
    let s = export_sample(48_965);
    assert_eq!(s.len(), 400);
    assert_eq!((s[1], s[399]), (122, 399 * 122));
    assert!(export_sample(0).is_empty());
    assert_eq!(export_tol_level(double(4e-5)), 0);
    assert_eq!(export_tol_level(double(4.1e-5)), 1);
}

#[test]
fn secrets_are_drawn_from_the_pool() {
    let v = Vectors::new(
        "small".to_string(),
        1,
        strings(&["mais", "Paris", "métro", "pilier"]),
        vec![single(1.0); 4],
        PRIOR_RANK,
    );
    assert_eq!(secret_pool(&v, 3), vec![0, 2]);
    let pool = secret_pool(&v, 100);
    assert_eq!(pool, vec![0, 2, 3]);
    let mut rng = Rng::new(1);
    let mut state = 1u64.wrapping_mul(0x9E3779B97F4A7C15).wrapping_add(1);
    for _ in 0..20 {
        state = state
            .wrapping_mul(6364136223846793005)
            .wrapping_add(1442695040888963407);
        assert_eq!(rng.draw(&pool), pool[((state >> 33) as usize) % 3]);
    }
}

#[test]
fn games_are_counted() {
    let mut t = Tally::new();
    assert_eq!((t.median(), t.longest()), (0, 0));
    assert_eq!(t.worst_games(), "");
    let game = |g: u32, w: &str| GameResult {
        guesses: g,
        word: w.to_string(),
        total_ms: 10,
    };
    for g in [3, 3, 3, 4, 2] {
        t.add_game(game(g, "court"));
    }
    t.add_game(game(6, "six"));
    t.add_game(game(90, "long"));
    t.add_game(game(6, "encore"));
    assert_eq!(t.games(), 8);
    assert_eq!(t.guesses(), 2 + 9 + 4 + 12 + 63);
    assert_eq!(t.median(), 3);
    assert_eq!(t.longest(), 63);
    assert_eq!(t.total_ms, 80);
    assert_eq!(t.worst_games(), "long (90), six (6), encore (6)");
    let h = t.histogram();
    assert_eq!(h.len(), 5);
    assert_eq!(h[0], format!("    2       1  {}", "█".repeat(7)));
    assert_eq!(h[1], format!("    3       3  {}", "█".repeat(22)));
    assert_eq!(h[4], format!("   63       1  {}", "█".repeat(7)));
}

#[test]
fn events_are_told() {
    let told = |e: Event| event_lines(&e);
    assert_eq!(
        told(Event::Init {
            day: Some(912),
            mode: "en direct".to_string(),
            game: "cemantix".to_string(),
            model: "frWac".to_string(),
            plausible: 48965,
            opener: None,
        }),
        vec!["▶ cemantix · en direct (jour 912) — modèle frWac, 48965 candidats plausibles, opener ?"]
    );
    assert!(told(Event::NeedStart { message: None }).is_empty());
    assert_eq!(
        told(Event::NeedStart {
            message: Some("essayez".to_string())
        }),
        vec!["  essayez"]
    );
    let probe = |forced: bool, h: f64| Event::Probe {
        n: 2,
        word: "métro".to_string(),
        forced,
        entropy: double(h),
        bits_text: format!("{h:.2}"),
        buckets: 26,
        probes: 27,
        candidates: 28,
        think_ms: 5,
    };
    assert_eq!(
        told(probe(false, 4.7)),
        vec![format!(
            "#{:<2} {:<20} H=4.70 bits (26 tranches sur 28 candidats)",
            2, "métro"
        )]
    );
    assert_eq!(
        told(probe(true, 4.7)),
        vec![format!(
            "#{:<2} {:<20} votre choix : H=4.70 bits (26 tranches sur 28 candidats)",
            2, "métro"
        )]
    );
    assert_eq!(
        told(probe(false, f64::NAN)),
        vec![format!("#{:<2} {:<20} (opener précalculé)", 2, "métro")]
    );
    let result = |after: usize, relaxed: bool| Event::Result {
        score_text: "   8.89°C".to_string(),
        emoji: "🥶",
        percentile: Some(12),
        alive_before: 100,
        alive_after: after,
        top: strings(&["un", "deux"]),
        tol: "±0.0002".to_string(),
        restricted: false,
        relaxed,
        filter_ms: 3,
        solvers: Some(7),
    };
    assert_eq!(
        told(result(2, true)),
        vec![
            "    →    8.89°C 🥶 ‰12   candidats 100 → 2  relâché : tol=±0.0002, plausible=false · 7 joueurs ont trouvé",
            "      restants : un, deux"
        ]
    );
    assert_eq!(told(result(1, false)).len(), 1);
    assert_eq!(told(result(12, false)).len(), 2);
    assert_eq!(told(result(13, false)).len(), 1);
    assert_eq!(
        told(Event::Unknown {
            word: "xyz".to_string(),
            message: "inconnu".to_string()
        }),
        vec!["    ✗ xyz : inconnu (retiré)"]
    );
    assert_eq!(
        told(Event::Solved {
            word: "pilier".to_string(),
            guesses: 3,
            total_ms: 1234,
        }),
        vec!["🥳 pilier trouvé en 3 coups"]
    );
}

#[test]
fn a_whole_game_is_told() {
    let probe = |n: u32, w: &str, h: f64, buckets: usize, candidates: usize| Event::Probe {
        n,
        word: w.to_string(),
        forced: false,
        entropy: double(h),
        bits_text: format!("{h:.2}"),
        buckets,
        probes: candidates,
        candidates,
        think_ms: 12,
    };
    let result = |text: &str, icon: &'static str, before: usize, after: usize| Event::Result {
        score_text: text.to_string(),
        emoji: icon,
        percentile: None,
        alive_before: before,
        alive_after: after,
        top: vec![],
        tol: "±0.0001".to_string(),
        restricted: true,
        relaxed: false,
        filter_ms: 9,
        solvers: None,
    };
    let told: Vec<String> = [
        probe(1, "mais", f64::NAN, 0, 48965),
        result("   8.89°C", "🥶", 48965, 26),
        probe(2, "métro", 4.7, 26, 26),
        result("  -0.04°C", "🧊", 26, 1),
        probe(3, "pilier", 0.0, 1, 1),
        Event::Solved {
            word: "pilier".to_string(),
            guesses: 3,
            total_ms: 900,
        },
    ]
    .iter()
    .flat_map(event_lines)
    .collect();
    assert_eq!(
        told,
        vec![
            "#1  mais                 (opener précalculé)",
            "    →    8.89°C 🥶   candidats 48965 → 26",
            "#2  métro                H=4.70 bits (26 tranches sur 26 candidats)",
            "    →   -0.04°C 🧊   candidats 26 → 1",
            "#3  pilier               H=0.00 bits (dernier candidat)",
            "🥳 pilier trouvé en 3 coups",
        ]
    );
}

#[test]
fn thermometers() {
    let by_rank: Vec<&str> = [1000, 999, 990, 900, 899]
        .iter()
        .map(|&p| emoji(double(0.1), Some(p)))
        .collect();
    assert_eq!(by_rank, vec!["🥳", "😱", "🔥", "🥵", "😎"]);
    assert_eq!(emoji(double(0.1), None), "🥶");
    assert_eq!(emoji(double(0.0), None), "🧊");
    let hot: Vec<&str> = [3.0, 10.0, 50.0, 200.0, 201.0]
        .iter()
        .map(|&r| emoji_rank(Some(double(r))))
        .collect();
    assert_eq!(hot, vec!["😱", "🔥", "🥵", "😎", "🥶"]);
    assert_eq!(emoji_rank(None), "🧊");
    let shown = ScoreNumbers {
        degrees: "8.89".to_string(),
        score: "399".to_string(),
        rank: "401".to_string(),
        floor_rank: "1333".to_string(),
    };
    let c = score_text(&Scoring::cemantix(), double(0.0889), None, double(1.0), &shown);
    assert_eq!((c.0.as_str(), c.1), ("   8.89°C", "🥶"));
    let q = score_text(&Scoring::quelmot(), double(399.0), None, double(400.7), &shown);
    assert_eq!((q.0.as_str(), q.1), ("    399 (rang ≈ 401)", "🥶"));
    let f = score_text(&Scoring::quelmot(), double(-999.0), None, double(1332.7), &shown);
    assert_eq!((f.0.as_str(), f.1), ("    399 (hors du top 1333)", "🧊"));
}

fn small_model() -> Vectors {
    Vectors::new(
        "small".to_string(),
        1,
        strings(&["mais", "métro", "été"]),
        vec![single(1.0); 3],
        PRIOR_RANK,
    )
}

#[test]
fn typed_words_are_looked_up() {
    let v = small_model();
    assert_eq!(read_word("  ÉTÉ\n"), "été");
    assert_eq!(read_word("Straße"), "straße");
    assert_eq!(forced_words(&v, &strings(&[" Métro ", "mais"])), Ok(vec![1, 0]));
    assert_eq!(
        forced_words(&v, &strings(&["mais", " Autre", "xyz"])),
        Err("autre".to_string())
    );
    assert!(matches!(read_start(&v, " \n"), Start::Opener));
    assert!(matches!(read_start(&v, " Mais\n"), Start::Word(0)));
    assert!(matches!(read_start(&v, "Autre\n"), Start::Missing(w) if w == "autre"));
    assert!(matches!(start_for(&v, "été".to_string()), Start::Word(2)));
    assert_eq!(
        split_report("Télépathie = 399=x"),
        Some(("télépathie".to_string(), "399=x".to_string()))
    );
    assert_eq!(split_report("rien"), None);
}

#[test]
fn scorings_are_named() {
    assert!(matches!(
        game_scoring("cemantix", Some(double(-1.0)), None),
        Ok(Scoring::Cosine { .. })
    ));
    let Ok(Scoring::Rank(m)) = game_scoring("quelmot", Some(double(1.8)), Some(double(1.5))) else {
        panic!("these options are good");
    };
    assert_eq!((f64_of(m.alpha), f64_of(m.window)), (1.8, 1.5));
    let Ok(Scoring::Rank(m)) = game_scoring("quelmot", None, None) else {
        panic!("no option is good too");
    };
    assert_eq!((f64_of(m.alpha), f64_of(m.window)), (1.5, 1.3));
    let message = |r: Result<Scoring, OptionError>| match r {
        Ok(_) => panic!("this is no game"),
        Err(e) => e.message(),
    };
    assert_eq!(
        message(game_scoring("quelmot", Some(double(0.0)), None)),
        "--alpha doit être > 0"
    );
    assert_eq!(
        message(game_scoring("quelmot", None, Some(double(1.0)))),
        "--window doit être > 1"
    );
    assert_eq!(
        message(game_scoring("autre", None, None)),
        "jeu inconnu « autre » (cemantix ou quelmot)"
    );
}

#[test]
fn scores_are_checked_against_the_server() {
    let v = small_model();
    let near = |w: &str| Neighbour {
        word: w.to_string(),
        percentile: 1,
        degrees: double(0.0),
    };
    assert_eq!(
        lookup_neighbours(&v, &vec![near("été"), near("autre")]),
        vec![Some(2), None]
    );
    let mut devs: Vec<Option<Double>> = vec![Some(double(0.0)), None, Some(double(0.011))];
    let c = check_scores(&devs);
    assert_eq!((c.missing, c.bad, f64_of(c.largest)), (1, 0, 0.011));
    assert!(!c.exact());
    for _ in 0..12 {
        devs.push(Some(double(0.5)));
    }
    let c = check_scores(&devs);
    assert_eq!((c.missing, c.bad, f64_of(c.largest)), (1, 12, 0.5));
    assert_eq!(c.shown, (3..13).collect::<Vec<usize>>());
    assert!(check_scores(&vec![Some(double(0.01))]).exact());
}

#[test]
fn ranks_are_checked_against_the_site() {
    assert_eq!(find_rank(&vec![2, 5, 9], &vec![30, 0, 7], 9), Some(7));
    assert_eq!(find_rank(&vec![2, 5, 9], &vec![30, 0, 7], 6), None);
    assert_eq!(judge_report(false, true, None), RankCheck::Missing);
    assert_eq!(judge_report(true, true, Some(4)), RankCheck::Floored);
    assert_eq!(judge_report(true, false, Some(4)), RankCheck::Fitted);
    assert_eq!(judge_report(true, false, Some(0)), RankCheck::Unfitted);
    assert_eq!(judge_report(true, false, None), RankCheck::Unfitted);
    let shown = ReportNumbers {
        score: "399".to_string(),
        site_rank: "601".to_string(),
        estimate: Some("405".to_string()),
        alpha: "1.50".to_string(),
    };
    let head = format!("{:<18} {:>7}", "télépathie", "399");
    assert_eq!(
        report_line(RankCheck::Fitted, "télépathie", Some(402), &shown),
        format!("{head} {:>10} {:>11} {:>10} {:>7}", "601", "402", "405", "1.50")
    );
    assert_eq!(
        report_line(RankCheck::Unfitted, "télépathie", None, &shown),
        format!("{head} {:>10} {:>11} {:>10} {:>7}", "601", "hors lexique", "405", "?")
    );
    let blank = ReportNumbers {
        estimate: None,
        ..shown
    };
    assert_eq!(
        report_line(RankCheck::Floored, "télépathie", Some(7739), &blank),
        format!("{head} {:>10} {:>11} {:>10} {:>7}", "plafonné", "7739", "—", "—")
    );
    assert_eq!(
        report_line(RankCheck::Missing, "télépathie", None, &blank),
        format!("{head}   absent du modèle")
    );
    let alphas: Vec<Double> = [1.52, 1.5, 2.5, 1.1].iter().map(|&x| double(x)).collect();
    let s = summarise_alphas(&alphas, double(1.5 * 1.3), double(1.5 / 1.3)).unwrap();
    assert_eq!(
        (f64_of(s.median), f64_of(s.lowest), f64_of(s.highest), s.off),
        (1.52, 1.1, 2.5, 2)
    );
    assert!(summarise_alphas(&vec![], double(1.0), double(1.0)).is_none());
}

#[test]
fn places_of_a_table() {
    let table = RankTable {
        levels: vec![1, 2, 4],
        row_of: vec![0, u32::MAX],
        sims: [0.9, 0.5, 0.1].iter().map(|&x| single(x)).collect(),
    };
    assert_eq!(table.rows(), 1);
    assert_eq!(table.reach(), 4);
    assert_eq!(table.locate(0, single(0.95)), Some(RankPlace::First));
    assert_eq!(table.locate(0, single(0.9)), Some(RankPlace::First));
    assert_eq!(table.locate(0, single(0.7)), Some(RankPlace::Between(0)));
    assert_eq!(table.locate(0, single(0.5)), Some(RankPlace::Between(0)));
    assert_eq!(table.locate(0, single(0.3)), Some(RankPlace::Between(1)));
    assert_eq!(table.locate(0, single(-0.3)), Some(RankPlace::Beyond));
    assert_eq!(table.locate(1, single(0.7)), None);
    assert_eq!(table.locate(9, single(0.7)), None);
}

#[test]
fn ranks_of_a_table() {
    let table = RankTable {
        levels: vec![1, 2, 4],
        row_of: vec![0, u32::MAX],
        sims: [0.9, 0.5, 0.1].iter().map(|&x| single(x)).collect(),
    };
    // The far level stands in for the interpolation, a fixed figure for what lies below.
    let below = |far: f64| RankScale {
        whole: |level: u32| double(level as f64),
        inside: |s: Segment| double(s.far_level as f64),
        beyond: move |s: Segment| {
            assert_eq!((s.near_level, s.far_level), (2, 4));
            double(far)
        },
    };
    let at = |word: usize, sim: f32| table.rank(word, single(sim), &below(7.5)).map(f64_of);
    assert_eq!(at(0, 0.95), Some(1.0));
    assert_eq!(at(0, 0.7), Some(2.0));
    assert_eq!(at(0, 0.3), Some(4.0));
    assert_eq!(at(0, -0.3), Some(7.5));
    assert_eq!(at(1, 0.7), None);
    assert_eq!(
        table.rank(0, single(-0.3), &below(3e7)).map(f64_of),
        Some(1e6)
    );
}

const HALVES: [u8; 8] = [0x00, 0x3c, 0x00, 0x00, 0x00, 0x00, 0x00, 0x3c];

fn page_model(ranks: &[u8], levels: &[u32]) -> Result<Vectors, EngineError> {
    build_vectors(
        &HALVES,
        "mais\nmétro\n",
        2,
        &Some("métro".to_string()),
        ranks,
        &levels.to_vec(),
        &Some("autre".to_string()),
    )
}

#[test]
fn the_page_model_is_checked() {
    let v = page_model(&[], &[1]).ok().unwrap();
    assert_eq!((v.opener, v.rank_opener, v.n()), (Some(1), None, 2));
    assert!(v.ranks.is_none());
    let v = page_model(&[0x00, 0x3c, 0x00, 0x38], &[1]).ok().unwrap();
    let t = v.ranks.unwrap();
    assert_eq!(t.sims.iter().map(|&s| f32_of(s)).collect::<Vec<f32>>(), vec![1.0, 0.5]);
    let message = |r: Result<Vectors, EngineError>| match r {
        Ok(_) => panic!("the sizes do not fit"),
        Err(e) => e.message(),
    };
    assert_eq!(
        message(page_model(&[1, 2, 3], &[1, 2])),
        "table de rangs incohérente : 3 octets pour 2 mots x 2 niveaux"
    );
    assert_eq!(
        message(build_vectors(&HALVES, "mais\n", 3, &None, &[], &vec![], &None)),
        "taille du modèle incohérente : 8 octets pour 1 mots x 3 dims"
    );
    let five: Vec<Double> = [1.5, 1.3, 0.5, 1000.0, -999.0].iter().map(|&x| double(x)).collect();
    let m = rank_model_from(&five, double(999.5)).ok().unwrap();
    assert_eq!((f64_of(m.top), f64_of(m.found)), (1000.0, 999.5));
    assert_eq!(f64_of(rank_model_from(&vec![], double(0.0)).ok().unwrap().found), 999.5);
    let Err(e) = rank_model_from(&five[..2].to_vec(), double(0.0)) else {
        panic!("two numbers are no model");
    };
    assert_eq!(e.message(), "rank_model attend 5 nombres");
}

#[test]
fn the_engine_plays_both_games() {
    let v = page_model(&[0x00, 0x3c, 0x00, 0x38], &[1]).ok().unwrap();
    let mut e = Engine::new(&v, RankModel::quelmot(), double(1.1), &None).ok().unwrap();
    assert_eq!(e.game(), "cemantix");
    assert_eq!(e.solver.tol_level, 1);
    assert!(e.has_ranks());
    assert_eq!((e.n(), e.plausible(), e.candidates(), e.hint_levels()), (2, 2, 2, 3));
    assert_eq!(e.lookup(" MÉTRO "), Some(1));
    assert_eq!(e.word(0), "mais");
    assert_eq!(e.tol("0.0002"), "±0.0002");
    assert!(e.rank_for(double(10.0), double(3.0)).is_none());
    assert!(e.floor_rank(double(3.0)).is_none());
    assert_eq!(e.top(5), "[\"mais\",\"métro\"]");
    e.ban(0);
    assert_eq!(e.top(5), "[\"métro\"]");
    assert!(e.set_game("quelmot").is_ok());
    assert_eq!((e.game().as_str(), e.candidates(), e.solver.tol_level), ("quelmot", 2, 0));
    assert_eq!(e.rank_for(double(10.0), double(0.3)).map(f64_of), Some(1.0));
    assert!(e.rank_for(double(-999.0), double(3.0)).is_none());
    assert_eq!(e.floor_rank(double(1332.5)).map(f64_of), Some(1332.5));
    let Err(err) = e.set_game("autre") else {
        panic!("there is no such game");
    };
    assert_eq!(err.message(), "jeu inconnu « autre »");
    assert_eq!(e.game(), "quelmot");
    let bare = page_model(&[], &[]).ok().unwrap();
    let Err(err) = Engine::new(&bare, RankModel::quelmot(), double(0.5), &Some("quelmot".to_string()))
    else {
        panic!("a rank game needs its table");
    };
    assert_eq!(
        err.message(),
        "ce jeu se joue aux rangs, or la table de rangs n'a pas été exportée"
    );
}

#[test]
fn the_engine_answers_the_page() {
    let v = page_model(&[], &[]).ok().unwrap();
    let sim = |i: u32, j: u32| single(if i == j { 1.0 } else { 0.0 });
    let mut e = Engine::new(&v, RankModel::quelmot(), double(0.5), &None).ok().unwrap();
    let g = Gauge {
        slot: |p: u32, q: u32| if p == q { 10_000 } else { 0 },
        place: |_: u32, _: u32| -> Option<RankSlot> { None },
        bits: |sizes: &Vec<usize>| Entropy {
            bits: double(sizes.len() as f64),
            bar: double(sizes.len() as f64 + 1e-9),
        },
        floor_quotient: double(1.0),
        reach: double(1.0),
    };
    let out = e.next_guess(&g);
    assert_eq!((out.word.as_str(), out.idx, out.opener), ("métro", 1, true));
    assert_eq!((f64_of(out.entropy), out.buckets, out.candidates), (2.0, 2, 2));
    let ev = e.evaluate(0, &g);
    assert_eq!((ev.word.as_str(), ev.idx, ev.buckets, ev.candidate), ("mais", 0, 2, true));
    let gaps = Evidence::Gaps(vec![double(0.0), double(1.0)]);
    let o = e.observe(1, double(0.0), gaps);
    assert_eq!((o.info.before, o.info.after, o.info.relaxed, o.restricted), (2, 1, false, true));
    assert_eq!(o.top, vec!["mais"]);
    let h = e.hint(0, &vec![], &sim);
    assert_eq!((h.granted, h.rung, h.level, h.remaining, h.alive), (false, "exhausted", 0, 3, 1));
    let h = e.hint(7, &vec![], &sim);
    assert_eq!((h.rung, h.remaining), ("ended", 0));
    let w = e.warmth(0, &sim);
    assert_eq!(w.word, "mais");
    assert_eq!(w.fit.map(f32_of), Some(1.0));
    assert_eq!(w.best.as_deref(), Some("métro"));
    assert_eq!(w.best_fit.map(f32_of), Some(0.0));
    assert!(!w.locked);
    e.reset();
    e.ban(0);
    e.ban(1);
    assert!(e.warmth(0, &sim).locked);
}

#[test]
fn words_are_escaped_in_json() {
    let words = "a\"b\\c\nmot\u{1}\u{1f}é/\n";
    let v = build_vectors(&[0u8; 4], words, 1, &None, &[], &vec![], &None).ok().unwrap();
    let mut e = Engine::new(&v, RankModel::quelmot(), double(0.5), &None).ok().unwrap();
    e.solver.alive = vec![true, true];
    e.solver.alive_count = 2;
    assert_eq!(e.top(9), "[\"a\\\"b\\\\c\",\"mot\\u0001\\u001fé/\"]");
    e.solver.alive = vec![false, false];
    e.solver.alive_count = 0;
    assert_eq!(e.top(9), "[]");
}
