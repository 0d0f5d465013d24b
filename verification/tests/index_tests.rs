use fixed_index::builder::{build, build_names, strip_id_suffix, BuildError, Entity};
use fixed_index::layout::Lookup;
use fixed_index::search::{check_index, get_line_length, lookup, Searcher};

fn ent(name: &str, id: u64, aux: u8) -> Entity {
    Entity { name: name.as_bytes().to_vec(), id, aux }
}

fn found(aux: u8, id: u64) -> Lookup {
    Lookup::Found { aux, id }
}

#[test]
fn scenario_disambiguated_records() {
    // two entities share the base name: each gets `-<rank>-<flag>`, ranks
    // by ascending identifier
    let data = build(&vec![ent("ruth", 1, b'h'), ent("ruth", 2, b'h')], 6).unwrap();
    let expected = b"ruth-0-h h 000001\nruth-1-h h 000002\n";
    assert_eq!(data, expected.to_vec());
    let r = lookup(&data, &b"ruth-0-h".to_vec(), 6);
    assert_eq!(r.outcome, found(b'h', 1));
    let r = lookup(&data, &b"ruth-1-h".to_vec(), 6);
    assert_eq!(r.outcome, found(b'h', 2));
}

#[test]
fn scenario_bare_base_name_not_stored() {
    let data = build(&vec![ent("ruth", 1, b'h'), ent("ruth", 2, b'h')], 6).unwrap();
    let r = lookup(&data, &b"ruth".to_vec(), 6);
    assert_eq!(r.outcome, Lookup::NotFound);
}

#[test]
fn scenario_single_record() {
    let data = build(&vec![ent("ohtani", 660271, b'h')], 6).unwrap();
    assert_eq!(data, b"ohtani h 660271\n".to_vec());
    assert_eq!(data.iter().filter(|&&b| b == b'\n').count(), 1);
    let r = lookup(&data, &b"ohtani".to_vec(), 6);
    assert_eq!(r.outcome, found(b'h', 660271));
}

#[test]
fn scenario_ten_records_negative_lookup_bounded() {
    let names = [
        "henryaaron", "yogiberra", "robertoclemente", "joedimaggio", "lougehrig",
        "rickeyhenderson", "reggiejackson", "sandykoufax", "mickeymantle", "willliemays",
    ];
    let mut ents = Vec::new();
    for (i, n) in names.iter().enumerate() {
        ents.push(ent(n, 100000 + i as u64, b'h'));
    }
    let data = build(&ents, 6).unwrap();
    let r = lookup(&data, &b"zzznotpresent".to_vec(), 6);
    assert_eq!(r.outcome, Lookup::NotFound);
    // ceil(log2(10)) == 4
    assert!(r.seeks <= 4, "took {} seeks", r.seeks);
}

#[test]
fn empty_file_not_found_without_seeks() {
    let data = build(&Vec::new(), 6).unwrap();
    assert!(data.is_empty());
    let r = lookup(&data, &b"anyone".to_vec(), 6);
    assert_eq!(r.outcome, Lookup::NotFound);
    assert_eq!(r.seeks, 0);
}

#[test]
fn single_record_boundaries() {
    let data = build(&vec![ent("abc", 7, b'p')], 1).unwrap();
    // line: key field 3 wide, flag, one digit: "abc p 7\n"
    assert_eq!(data, b"abc p 7\n".to_vec());
    assert_eq!(lookup(&data, &b"abc".to_vec(), 1).outcome, found(b'p', 7));
    assert_eq!(lookup(&data, &b"abd".to_vec(), 1).outcome, Lookup::NotFound);
    assert_eq!(lookup(&data, &b"ab".to_vec(), 1).outcome, Lookup::NotFound);
    // the key field admits queries up to lineLength - idWidth - 2 bytes
    let line_len = 8;
    let width_limit = line_len - 1 - 2;
    let at_limit = vec![b'z'; width_limit];
    let r = lookup(&data, &at_limit, 1);
    assert_eq!(r.outcome, Lookup::NotFound);
    let over_limit = vec![b'z'; width_limit + 1];
    let r = lookup(&data, &over_limit, 1);
    assert_eq!(r.outcome, Lookup::KeyTooLong);
    assert_eq!(r.seeks, 0);
}

#[test]
fn round_trip_every_record() {
    let ents = vec![
        ent("griffey", 121578, b'h'),
        ent("maddux", 118120, b'p'),
        ent("smith", 1, b'h'),
        ent("smith", 2, b'p'),
        ent("smith", 3, b'h'),
        ent("rivera", 121250, b'p'),
    ];
    let data = build(&ents, 6).unwrap();
    let expect = [
        ("griffey", b'h', 121578),
        ("maddux", b'p', 118120),
        ("smith-0-h", b'h', 1),
        ("smith-1-p", b'p', 2),
        ("smith-2-h", b'h', 3),
        ("rivera", b'p', 121250),
    ];
    for (key, aux, id) in expect {
        let r = lookup(&data, &key.as_bytes().to_vec(), 6);
        assert_eq!(r.outcome, found(aux, id), "key {key}");
    }
}

#[test]
fn idempotent_build() {
    let ents = vec![
        ent("smith", 9, b'h'),
        ent("jones", 3, b'p'),
        ent("smith", 4, b'p'),
    ];
    let a = build(&ents, 6).unwrap();
    let b = build(&ents, 6).unwrap();
    assert_eq!(a, b);
    // the disambiguation ranks follow the identifiers, not the input order
    let reordered = vec![
        ent("smith", 4, b'p'),
        ent("jones", 3, b'p'),
        ent("smith", 9, b'h'),
    ];
    let c = build(&reordered, 6).unwrap();
    assert_eq!(a, c);
}

#[test]
fn case_folding_shared_by_builder_and_lookup() {
    let data = build(&vec![ent("RuTh", 5, b'h')], 6).unwrap();
    assert_eq!(lookup(&data, &b"RUTH".to_vec(), 6).outcome, found(b'h', 5));
    assert_eq!(lookup(&data, &b"ruth".to_vec(), 6).outcome, found(b'h', 5));
}

#[test]
fn duplicate_pair_keeps_last_flag() {
    let data = build(&vec![ent("a", 1, b'x'), ent("a", 1, b'y')], 3).unwrap();
    assert_eq!(lookup(&data, &b"a".to_vec(), 3).outcome, found(b'y', 1));
    assert_eq!(data.iter().filter(|&&b| b == b'\n').count(), 1);
}

#[test]
fn builder_refusals() {
    assert_eq!(build(&vec![ent("", 1, b'h')], 6), Err(BuildError::InvalidName));
    assert_eq!(build(&vec![ent("a b", 1, b'h')], 6), Err(BuildError::InvalidName));
    assert_eq!(build(&vec![ent("ab", 1, b'H')], 6), Err(BuildError::InvalidFlag));
    assert_eq!(build(&vec![ent("ab", 1, b' ')], 6), Err(BuildError::InvalidFlag));
    assert_eq!(build(&vec![ent("ab", 1_000_000, b'h')], 6), Err(BuildError::EncodingOverflow));
    assert!(build(&vec![ent("ab", 999_999, b'h')], 6).is_ok());
    // a disambiguated key colliding with another entity's base name
    let ents = vec![ent("ab", 1, b'h'), ent("ab", 2, b'h'), ent("ab-0-h", 3, b'x')];
    assert_eq!(build(&ents, 6), Err(BuildError::DuplicateKey));
}

#[test]
fn names_file_in_lockstep() {
    let ents = vec![ent("ruth", 1, b'h'), ent("ruth", 2, b'h'), ent("aaron", 44, b'h')];
    let names = build_names(&ents, 6).unwrap();
    assert_eq!(names, b"aaron\nruth-0-h\nruth-1-h\n".to_vec());
    assert_eq!(build_names(&vec![ent("ab", 1, b'H')], 6), Err(BuildError::InvalidFlag));
}

#[test]
fn line_length_scan() {
    assert_eq!(get_line_length(&b"abc h 12\nxyz".to_vec()), Some(9));
    assert_eq!(get_line_length(&b"\n".to_vec()), Some(1));
    assert_eq!(get_line_length(&b"no newline at all".to_vec()), None);
}

#[test]
fn malformed_files_are_reported() {
    // no newline at all
    let r = lookup(&b"notalinefile".to_vec(), &b"a".to_vec(), 3);
    assert_eq!(r.outcome, Lookup::Malformed);
    assert_eq!(r.seeks, 0);
    // a truncated final line
    let mut data = build(&vec![ent("abc", 7, b'p'), ent("abd", 8, b'p')], 1).unwrap();
    data.pop();
    let r = lookup(&data, &b"abc".to_vec(), 1);
    assert_eq!(r.outcome, Lookup::Malformed);
    // a line too short for the fields
    let r = lookup(&b"a\n".to_vec(), &b"a".to_vec(), 3);
    assert_eq!(r.outcome, Lookup::Malformed);
}

#[test]
fn searcher_drives_like_lookup() {
    // feed the state machine by hand, the way a file reader would
    let ents = vec![
        ent("aaron", 1, b'h'),
        ent("banks", 2, b'h'),
        ent("cobb", 3, b'h'),
        ent("doby", 4, b'p'),
        ent("erskine", 5, b'p'),
    ];
    let data = build(&ents, 6).unwrap();
    let line_len = get_line_length(&data).unwrap();
    for (query, want) in [
        (&b"cobb"[..], found(b'h', 3)),
        (&b"zzz"[..], Lookup::NotFound),
        (&b"aaron"[..], found(b'h', 1)),
    ] {
        let mut st = Searcher::new(&query.to_vec(), 6, line_len, data.len() as u64);
        let mut steps = 0;
        while st.done().is_none() {
            let off = st.next_offset() as usize;
            let line = data[off..off + line_len].to_vec();
            st.feed(&line);
            steps += 1;
            assert!(steps <= 64, "search did not terminate");
        }
        assert_eq!(st.done().unwrap(), want);
        assert_eq!(st.seeks(), steps);
        // the outcome matches the in-memory driver
        assert_eq!(lookup(&data, &query.to_vec(), 6).outcome, want);
    }
}

#[test]
fn searcher_rejects_degenerate_configurations() {
    let st = Searcher::new(&b"abc".to_vec(), 3, 2, 10);
    assert_eq!(st.done(), Some(Lookup::Malformed));
    let st = Searcher::new(&b"abc".to_vec(), 3, 9, 10);
    assert_eq!(st.done(), Some(Lookup::Malformed));
    let st = Searcher::new(&b"abc".to_vec(), 3, 9, 0);
    assert_eq!(st.done(), Some(Lookup::NotFound));
    let st = Searcher::new(&b"abcdefgh".to_vec(), 3, 9, 18);
    assert_eq!(st.done(), Some(Lookup::KeyTooLong));
}

#[test]
fn strip_id_suffix_drops_trailing_segment() {
    assert_eq!(strip_id_suffix(&b"babe-ruth-121578".to_vec()), b"babe-ruth".to_vec());
    assert_eq!(strip_id_suffix(&b"ohtani-660271".to_vec()), b"ohtani".to_vec());
}

#[test]
fn validator_accepts_built_files_and_rejects_tampering() {
    let data = build(&vec![ent("aaron", 1, b'h'), ent("ruth", 2, b'h')], 6).unwrap();
    assert!(check_index(&data, 6));
    assert!(check_index(&Vec::new(), 6));
    // swapping the two lines violates the sort invariant
    let l = get_line_length(&data).unwrap();
    let mut swapped = data[l..].to_vec();
    swapped.extend_from_slice(&data[..l]);
    assert!(!check_index(&swapped, 6));
    // a non-digit in the identifier field violates the line format
    let mut bad = data.clone();
    bad[l - 2] = b'x';
    assert!(!check_index(&bad, 6));
    assert!(!check_index(&b"junk".to_vec(), 6));
}
