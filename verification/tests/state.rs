use discac::rotation::{
    advance, build_pool, load_or_build, select_next, state_from_bytes, state_to_bytes,
    RotationError, RotationState,
};

fn paths(list: &[&str]) -> Vec<Vec<u8>> {
    list.iter().map(|s| s.as_bytes().to_vec()).collect()
}

fn sorted(mut v: Vec<Vec<u8>>) -> Vec<Vec<u8>> {
    v.sort();
    v
}

#[test]
fn pool_holds_each_qualifying_path_once() {
    let entries = paths(&["d/a.png", "d/b.jpg", "d/notes.txt", "d/c.png", "d/readme"]);
    let st = build_pool(&entries, Vec::new()).unwrap();
    assert_eq!(
        sorted(st.pool.clone()),
        sorted(paths(&["d/a.png", "d/b.jpg", "d/c.png"]))
    );
    assert_eq!(st.pool.len(), 3);
    assert!(st.current.is_empty());
}

#[test]
fn fewer_than_two_candidates_is_a_configuration_error() {
    let entries = paths(&["d/a.png", "d/notes.txt"]);
    assert!(matches!(
        build_pool(&entries, Vec::new()),
        Err(RotationError::TooFewCandidates)
    ));
    let none: Vec<Vec<u8>> = Vec::new();
    assert!(matches!(
        build_pool(&none, Vec::new()),
        Err(RotationError::TooFewCandidates)
    ));
}

#[test]
fn extension_match_is_exact_and_case_sensitive() {
    // Only `x.png` qualifies here, so the build still fails for want of a
    // second candidate.
    let entries = paths(&["d/A.PNG", "d/b.JPG", "d/c.jpeg", "d/djpg", "d/.jpg", "x.png"]);
    assert!(matches!(
        build_pool(&entries, Vec::new()),
        Err(RotationError::TooFewCandidates)
    ));
    // A dot inside the stem is fine.
    let entries = paths(&["d/x.tar.png", "d/y..jpg"]);
    let st = build_pool(&entries, Vec::new()).unwrap();
    assert_eq!(st.pool.len(), 2);
}

#[test]
fn select_next_pops_the_last_element_and_sets_current() {
    let mut st = RotationState {
        pool: paths(&["x", "y", "z"]),
        current: b"old".to_vec(),
    };
    let got = select_next(&mut st);
    assert_eq!(got, b"z".to_vec());
    assert_eq!(st.current, b"z".to_vec());
    assert_eq!(st.pool, paths(&["x", "y"]));
    assert!(!st.pool.contains(&got));
}

#[test]
fn loading_a_non_empty_pool_keeps_it_exactly() {
    let persisted = RotationState {
        pool: paths(&["p/a.png", "p/b.jpg"]),
        current: b"p/c.png".to_vec(),
    };
    let bytes = state_to_bytes(&persisted);
    // The directory listing differs completely; it must not matter.
    let entries = paths(&["q/x.png", "q/y.jpg", "q/z.png"]);
    let st = load_or_build(Some(&bytes), &entries).unwrap();
    assert_eq!(st.pool, persisted.pool);
    assert_eq!(st.current, persisted.current);
}

#[test]
fn rebuilding_from_an_empty_pool_never_picks_the_retired_path_next() {
    let entries = paths(&["d/a.png", "d/b.jpg"]);
    for _ in 0..50 {
        let persisted = RotationState {
            pool: Vec::new(),
            current: b"d/a.png".to_vec(),
        };
        let bytes = state_to_bytes(&persisted);
        let (st, chosen) = advance(Some(&bytes), &entries).unwrap();
        assert_ne!(chosen, b"d/a.png".to_vec());
        assert_eq!(chosen, b"d/b.jpg".to_vec());
        assert_eq!(st.current, chosen);
    }
}

#[test]
fn round_trip_preserves_pool_and_current() {
    let st = RotationState {
        pool: paths(&["one.png", "two.jpg", "three.png"]),
        current: b"two.jpg".to_vec(),
    };
    let bytes = state_to_bytes(&st);
    let back = state_from_bytes(&bytes).unwrap();
    assert_eq!(back.pool, st.pool);
    assert_eq!(back.current, st.current);
}

#[test]
fn round_trip_preserves_awkward_bytes_in_paths() {
    let st = RotationState {
        pool: vec![
            b"with \"quote\".png".to_vec(),
            b"back\\slash.jpg".to_vec(),
            vec![0x01, 0x1f, b'\n', b'\t', 0x7f, 0xff, b'.', b'p', b'n', b'g'],
        ],
        current: vec![0x00, b'"', b'\\'],
    };
    let bytes = state_to_bytes(&st);
    let back = state_from_bytes(&bytes).unwrap();
    assert_eq!(back.pool, st.pool);
    assert_eq!(back.current, st.current);
}

#[test]
fn encoding_is_the_exact_canonical_json() {
    let st = RotationState {
        pool: vec![b"a".to_vec()],
        current: b"c".to_vec(),
    };
    let bytes = state_to_bytes(&st);
    assert_eq!(bytes, b"{\"avatars\":[\"a\"],\"current\":\"c\"}".to_vec());

    let empty = RotationState {
        pool: Vec::new(),
        current: vec![0x0a],
    };
    let bytes = state_to_bytes(&empty);
    assert_eq!(
        bytes,
        b"{\"avatars\":[],\"current\":\"\\u000a\"}".to_vec()
    );
}

#[test]
fn malformed_state_bytes_are_fatal() {
    let bad: Vec<&[u8]> = vec![
        b"",
        b"{}",
        b"{\"avatars\":[\"a\"],\"current\":\"c\"",
        b"{\"avatars\":[\"a\"],\"current\":\"c\"} ",
        b"{\"avatars\": [\"a\"],\"current\":\"c\"}",
        b"{\"avatars\":[\"a\",],\"current\":\"c\"}",
        b"{\"avatars\":[\"a\"],\"current\":42}",
        b"{\"avatars\":[\"\\x\"],\"current\":\"c\"}",
    ];
    for b in bad {
        let entries = paths(&["d/a.png", "d/b.jpg"]);
        assert!(matches!(
            state_from_bytes(&b.to_vec()),
            Err(RotationError::MalformedState)
        ));
        assert!(matches!(
            advance(Some(&b.to_vec()), &entries),
            Err(RotationError::MalformedState)
        ));
    }
}

#[test]
fn two_runs_then_a_rebuild_that_avoids_the_retired_avatar() {
    let entries = paths(&["d/a.png", "d/b.jpg"]);

    // First run: no state file yet.
    let (st1, chosen1) = advance(None, &entries).unwrap();
    assert!(chosen1 == b"d/a.png".to_vec() || chosen1 == b"d/b.jpg".to_vec());
    assert_eq!(st1.pool.len(), 1);
    assert_ne!(st1.pool[0], chosen1);
    assert_eq!(st1.current, chosen1);
    let bytes1 = state_to_bytes(&st1);

    // Second run pops the remaining path.
    let (st2, chosen2) = advance(Some(&bytes1), &entries).unwrap();
    assert_eq!(chosen2, st1.pool[0]);
    assert_ne!(chosen2, chosen1);
    assert!(st2.pool.is_empty());
    assert_eq!(st2.current, chosen2);
    let bytes2 = state_to_bytes(&st2);

    // Third run rebuilds a fresh pool and must not repeat chosen2 at once.
    let (st3, chosen3) = advance(Some(&bytes2), &entries).unwrap();
    assert_ne!(chosen3, chosen2);
    assert_eq!(chosen3, chosen1);
    assert_eq!(st3.pool.len(), 1);
    assert_eq!(st3.pool[0], chosen2);
}

#[test]
fn shuffled_pool_still_holds_exactly_the_candidates() {
    let entries = paths(&["d/a.png", "d/b.jpg", "d/c.png", "d/d.jpg", "d/e.png"]);
    let st = build_pool(&entries, b"d/c.png".to_vec()).unwrap();
    assert_eq!(sorted(st.pool.clone()), sorted(entries.clone()));
    assert_ne!(st.pool.last().unwrap(), &b"d/c.png".to_vec());
    assert_eq!(st.current, b"d/c.png".to_vec());
}

#[test]
fn encoded_state_is_json_that_serde_also_reads() {
    let st = RotationState {
        pool: vec![b"a.png".to_vec(), b"b \"x\" \\ y.jpg".to_vec()],
        current: b"c.png".to_vec(),
    };
    let bytes = state_to_bytes(&st);
    let value: serde_json::Value = serde_json::from_slice(&bytes).unwrap();
    assert_eq!(value["avatars"][0].as_str().unwrap(), "a.png");
    assert_eq!(value["avatars"][1].as_str().unwrap(), "b \"x\" \\ y.jpg");
    assert_eq!(value["current"].as_str().unwrap(), "c.png");
}

#[test]
fn absent_state_builds_a_fresh_pool() {
    let entries = paths(&["d/a.png", "d/b.jpg", "d/c.png"]);
    let st = load_or_build(None, &entries).unwrap();
    assert_eq!(st.pool.len(), 3);
    assert!(st.current.is_empty());
    assert_eq!(sorted(st.pool.clone()), sorted(entries));
}

#[test]
fn select_next_empties_a_single_element_pool() {
    let mut st = RotationState {
        pool: paths(&["only.png"]),
        current: b"prior.jpg".to_vec(),
    };
    let got = select_next(&mut st);
    assert_eq!(got, b"only.png".to_vec());
    assert!(st.pool.is_empty());
    assert_eq!(st.current, got);
}
