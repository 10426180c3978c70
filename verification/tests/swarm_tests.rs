use kona_rs::ffi::{cfuncs, FfiError, FfiValue, FloatFn};
use kona_rs::k::K;
use kona_rs::piece::{Piece, PieceManager};
use kona_rs::primitives::{implemented_count, primitives, PrimitiveStatus};
use kona_rs::rag::{format_hermes_prompt, tokenize};
use kona_rs::rng::SimpleRng;
use kona_rs::swarm::{gather_sum, policy_id, SwarmState};
use kona_rs::tfidf::{build_vocabulary, term_counts};
use kona_rs::va::{_2m, dyad_checked, plus, ScalarOp};

#[test]
fn rng_follows_the_linear_congruence() {
    let mut rng = SimpleRng::new(42);
    assert_eq!(rng.next_u32(), 3397979675);
    assert_eq!(rng.next_u32(), 3263785912);
    assert_eq!(rng.next_u32(), 3148160401);
    assert_eq!(rng.state, 3148160401);
}

#[test]
fn rng_wraps_around() {
    let mut rng = SimpleRng::new(u32::MAX);
    let expected = (u32::MAX as u64 * 1103515245 + 12345) % (1u64 << 32);
    assert_eq!(rng.next_u32() as u64, expected);
}

#[test]
fn gather_sum_counts_seeders() {
    let bits = vec![
        K::from_ints(vec![1, 0, 1]),
        K::from_ints(vec![1, 1, 0]),
        K::from_ints(vec![0, 1, 1]),
        K::from_ints(vec![0, 0, 1]),
    ];
    let sum = gather_sum(&bits).unwrap();
    assert_eq!(sum.ki_data(), &[2, 2, 3]);
    let one = gather_sum(&bits[..1]).unwrap();
    assert_eq!(one.ki_data(), &[1, 0, 1]);
    let none = gather_sum(&[]).unwrap();
    assert_eq!((none.t, none.n), (1, 0));
}

#[test]
fn gather_sum_refuses_mismatched_lengths() {
    let bits = vec![K::from_ints(vec![1, 0, 1]), K::from_ints(vec![1, 1])];
    assert!(gather_sum(&bits).is_none());
    let big = vec![K::ki(i64::MAX), K::ki(1)];
    assert!(gather_sum(&big).is_none());
}

#[test]
fn checked_dyad_matches_plus() {
    let a = K::from_ints(vec![1, 2, 3]);
    let b = K::from_ints(vec![10, 20, 30]);
    let r = dyad_checked(ScalarOp::Plus, &a, &b).unwrap();
    assert_eq!(r.ki_data(), plus(&a, &b).ki_data());
    assert!(dyad_checked(ScalarOp::Plus, &a, &K::from_ints(vec![1, 2])).is_none());
    assert!(dyad_checked(ScalarOp::Times, &K::ki(i64::MAX), &K::ki(2)).is_none());
    let r = dyad_checked(ScalarOp::Less, &K::ki(i64::MAX), &K::ki(2)).unwrap();
    assert_eq!(r.ki_data(), &[0]);
}

#[test]
fn strategy_names_ignore_case() {
    assert_eq!(policy_id("RAREST"), 0);
    assert_eq!(policy_id("rarest-first"), 0);
    assert_eq!(policy_id("Priority-Weighted"), 2);
    assert_eq!(policy_id("priority"), 2);
    assert_eq!(policy_id("seq"), 1);
    assert_eq!(policy_id("Sequential"), 1);
    assert_eq!(policy_id("bogus"), 1);
}

#[test]
fn priorities_weigh_as_doubles() {
    let client = vec![false, false];
    let avail = vec![1, 1];
    let prios = vec![9_007_199_254_740_992, 9_007_199_254_740_993];
    let order = kona_rs::swarm::select_pieces("priority", &client, &avail, &prios);
    assert_eq!(order, vec![0, 1]);
    let prios = vec![1, 3];
    let order = kona_rs::swarm::select_pieces("priority", &client, &avail, &prios);
    assert_eq!(order, vec![1, 0]);
}

#[test]
fn pieces_nobody_has_are_skipped() {
    let client = vec![false, true, false, false];
    let avail = vec![0, 2, 3];
    let order = kona_rs::swarm::select_pieces("rarest", &client, &avail, &[]);
    assert_eq!(order, vec![2]);
}

#[test]
fn swarm_state_starts_with_defaults() {
    let s = SwarmState::new(10, 5);
    assert_eq!(s.client_pieces, vec![false, false, true, false, false, true, false, false, false, false]);
    assert_eq!(s.priorities, vec![2; 10]);
    assert_eq!(s.availability, vec![0; 10]);
    assert!(!s.query_run);
    let small = SwarmState::new(4, 1);
    assert_eq!(small.client_pieces, vec![false; 4]);
}

#[test]
fn swarm_state_validates_edits() {
    let mut s = SwarmState::new(6, 2);
    assert!(!s.set_priority(6, 2));
    assert!(!s.set_priority(1, 4));
    assert!(!s.set_priority(1, 0));
    assert!(s.set_priority(1, 3));
    assert_eq!(s.priorities, vec![2, 3, 2, 2, 2, 2]);
    assert!(!s.set_client(0, 2));
    assert!(s.set_client(0, 1));
    assert!(s.set_client(2, 0));
    assert_eq!(s.client_pieces, vec![true, false, false, false, false, true]);
    assert!(!s.set_pieces(0));
    assert_eq!(s.num_pieces, 6);
    assert!(!s.set_seeders(0));
    s.record_availability(vec![1, 1, 1, 1, 1, 1]);
    assert!(s.query_run);
    assert!(s.set_seeders(3));
    assert!(!s.query_run);
    assert_eq!(s.num_seeders, 3);
    assert!(s.set_pieces(3));
    assert_eq!(s.client_pieces, vec![false; 3]);
    assert_eq!(s.priorities, vec![2; 3]);
    assert_eq!(s.availability, vec![0; 3]);
}

#[test]
fn swarm_state_selects_from_recorded_availability() {
    let mut s = SwarmState::new(6, 2);
    s.record_availability(vec![3, 1, 5, 2, 0, 4]);
    assert_eq!(s.select("rarest"), vec![1, 3, 0]);
    assert_eq!(s.select("seq"), vec![0, 1, 3]);
    assert!(s.set_priority(3, 1));
    assert!(s.set_priority(0, 3));
    assert_eq!(s.select("priority"), vec![0, 1, 3]);
}

#[test]
fn vocabulary_is_sorted_with_document_frequencies() {
    let docs = vec!["Rust is safe".to_string(), "Python is simple".to_string()];
    let v = build_vocabulary(&docs);
    assert_eq!(v.terms, vec!["is", "python", "rust", "safe", "simple"]);
    assert_eq!(v.doc_freqs, vec![2, 1, 1, 1, 1]);
}

#[test]
fn vocabulary_counts_a_document_once() {
    let docs = vec!["b a b".to_string(), "B".to_string(), "".to_string()];
    let v = build_vocabulary(&docs);
    assert_eq!(v.terms, vec!["a", "b"]);
    assert_eq!(v.doc_freqs, vec![1, 2]);
    assert!(build_vocabulary(&[]).terms.is_empty());
}

#[test]
fn term_counts_follow_the_vocabulary() {
    let docs = vec!["Rust is safe".to_string(), "Python is simple".to_string()];
    let v = build_vocabulary(&docs);
    assert_eq!(term_counts(&v, "Rust, rust: is it?"), vec![1, 0, 2, 0, 0]);
    assert_eq!(term_counts(&v, ""), vec![0; 5]);
}

#[test]
fn tokenize_lowercases_unicode() {
    assert_eq!(tokenize("ABC déjà-VU 42"), vec!["abc", "déjà", "vu", "42"]);
    assert_eq!(tokenize("  ...  "), Vec::<String>::new());
}

#[test]
fn hermes_prompt_without_context() {
    let prompt = format_hermes_prompt("sys", "", "q");
    assert_eq!(prompt, "<|im_start|>system\nsys<|im_end|>\n<|im_start|>user\nQuestion: q<|im_end|>\n<|im_start|>assistant\n");
}

#[test]
fn ffi_reports_arity_errors() {
    let two = K::from_list(vec![K::ki(1), K::ki(2)]);
    match cfuncs(101, &two) {
        Err(FfiError::Arity { fno, expected, got }) => assert_eq!((fno, expected, got), (101, 1, 2)),
        other => panic!("unexpected {:?}", other),
    }
    match cfuncs(104, &K::ki(1)) {
        Err(FfiError::Arity { fno, expected, got }) => assert_eq!((fno, expected, got), (104, 2, 1)),
        other => panic!("unexpected {:?}", other),
    }
}

#[test]
fn ffi_reports_length_errors() {
    let args = K::from_list(vec![K::from_ints(vec![1, 2]), K::from_ints(vec![1, 2, 3])]);
    match cfuncs(104, &args) {
        Err(FfiError::Length { an, bn }) => assert_eq!((an, bn), (2, 3)),
        other => panic!("unexpected {:?}", other),
    }
    let lists = K::from_list(vec![
        K::from_list(vec![K::ki(1)]),
        K::from_list(vec![K::ki(1), K::ki(2)]),
    ]);
    match cfuncs(104, &lists) {
        Err(FfiError::ListLength { left, right }) => assert_eq!((left, right), (1, 2)),
        other => panic!("unexpected {:?}", other),
    }
}

#[test]
fn ffi_refuses_an_atom_against_an_empty_vector() {
    let args = K::from_list(vec![K::ki(1), K::from_ints(vec![])]);
    match cfuncs(104, &args) {
        Err(FfiError::Length { an, bn }) => assert_eq!((an, bn), (1, 0)),
        other => panic!("unexpected {:?}", other),
    }
    let lists = K::from_list(vec![K::from_list(vec![]), K::ki(1)]);
    match cfuncs(104, &lists) {
        Ok(FfiValue::Value(x)) => assert_eq!((x.t, x.n), (0, 0)),
        other => panic!("unexpected {:?}", other),
    }
}

#[test]
fn ffi_reports_unknown_functions() {
    match cfuncs(999, &K::ki(1)) {
        Err(FfiError::UnknownFunction { fno }) => assert_eq!(fno, 999),
        other => panic!("unexpected {:?}", other),
    }
}

#[test]
fn ffi_hands_back_functions_on_doubles() {
    match cfuncs(102, &K::from_ints(vec![0, 1])) {
        Ok(FfiValue::Float(FloatFn::Cos, x)) => assert_eq!(x.ki_data(), &[0, 1]),
        other => panic!("unexpected {:?}", other),
    }
    let nested = K::from_list(vec![K::ki(1), K::from_ints(vec![2, 3])]);
    match cfuncs(105, &nested) {
        Err(FfiError::Arity { fno, expected, got }) => assert_eq!((fno, expected, got), (105, 1, 2)),
        other => panic!("unexpected {:?}", other),
    }
    match cfuncs(105, &K::from_list(vec![nested])) {
        Ok(FfiValue::Value(x)) => assert_eq!(x.ki_data(), &[3, 4]),
        other => panic!("unexpected {:?}", other),
    }
}

#[test]
fn ffi_projection_carries_valence() {
    let p = _2m(&K::ki(104));
    let items = p.kk_data();
    assert_eq!(items[0].ki_data(), &[104]);
    assert_eq!(items[1].ki_data(), &[2]);
    let p = _2m(&K::ki(101));
    assert_eq!(p.kk_data()[1].ki_data(), &[1]);
}

#[test]
fn primitive_table_counts_implemented() {
    assert_eq!(implemented_count(), 31);
    let table = primitives();
    assert_eq!(table.len(), 68);
    let n = table.iter().filter(|p| matches!(p.status, PrimitiveStatus::Implemented)).count();
    assert_eq!(n, 31);
    assert_eq!((table[0].name, table[0].c_function, table[0].valence), ("/", "over", 0));
    assert_eq!((table[67].name, table[67].c_function), ("6:", "_6d"));
}

#[test]
fn piece_manager_keeps_vocab_size() {
    let pieces = vec![Piece {
        id: 0,
        hash: [7u8; 20],
        embedding: K::from_ints(vec![1, 2, 3]),
        source: std::path::PathBuf::from("a.bin"),
        content: "abc".to_string(),
    }];
    let m = PieceManager::new(pieces, 512);
    assert_eq!(m.vocab_size(), 512);
    assert_eq!(m.pieces[0].embedding.ki_data(), &[1, 2, 3]);
}
