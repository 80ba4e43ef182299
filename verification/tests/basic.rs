use station_stats::format::{format_summary, lex_less, mean_tenths, sorted_pairs};
use station_stats::hash::{hash_key, MyHasherBuilder, SEED};
use station_stats::partition::{find_last_newline, partition};
use station_stats::pipeline::{get_map_with_workers, parse, validate, RunError};
use station_stats::table::{bytes_eq, AggTable, Weather};
use station_stats::temp::{is_temp_exec, parse_temp};
use station_stats::{get_map, run};

#[test]
fn parse_temp_negative_one_digit() {
    assert_eq!(parse_temp(b"-3.2"), -32);
}

#[test]
fn parse_temp_zero() {
    assert_eq!(parse_temp(b"0.0"), 0);
}

#[test]
fn parse_temp_two_digits() {
    assert_eq!(parse_temp(b"99.9"), 999);
}

#[test]
fn parse_temp_negative_fraction() {
    assert_eq!(parse_temp(b"-0.1"), -1);
}

#[test]
fn parse_temp_more_values() {
    assert_eq!(parse_temp(b"12.5"), 125);
    assert_eq!(parse_temp(b"-99.9"), -999);
    assert_eq!(parse_temp(b"7.0"), 70);
}

#[test]
fn temp_grammar_check() {
    assert!(is_temp_exec(b"1.2"));
    assert!(is_temp_exec(b"12.3"));
    assert!(is_temp_exec(b"-1.2"));
    assert!(is_temp_exec(b"-12.3"));
    assert!(!is_temp_exec(b""));
    assert!(!is_temp_exec(b"1"));
    assert!(!is_temp_exec(b"1.23"));
    assert!(!is_temp_exec(b"123.4"));
    assert!(!is_temp_exec(b"12x3"));
    assert!(!is_temp_exec(b"-"));
    assert!(!is_temp_exec(b"1,2"));
}

#[test]
fn hasher_matches_one_shot_digest() {
    let builder = MyHasherBuilder;
    let mut h = builder.build_hasher();
    h.write(b"Hamburg");
    assert_eq!(h.finish(), hash_key(b"Hamburg"));
}

#[test]
fn hasher_two_byte_key() {
    // a two-byte key is below every chunk width, so the accumulator
    // mixes it one byte at a time
    let expected = {
        let s0 = (0u64 ^ b'a' as u64).wrapping_mul(SEED);
        (s0 ^ b'b' as u64).wrapping_mul(SEED)
    };
    assert_eq!(hash_key(b"ab"), expected);
}

#[test]
fn hasher_eight_byte_key_uses_word() {
    let word = u64::from_le_bytes(*b"abcdefgh");
    let expected = (0u64 ^ word).wrapping_mul(SEED);
    assert_eq!(hash_key(b"abcdefgh"), expected);
}

#[test]
fn hasher_depends_on_content() {
    assert_ne!(hash_key(b"Hamburg"), hash_key(b"Oslo"));
}

#[test]
fn bytes_eq_compares_content() {
    assert!(bytes_eq(&b"abc".to_vec(), b"abc"));
    assert!(!bytes_eq(&b"abc".to_vec(), b"abd"));
    assert!(!bytes_eq(&b"abc".to_vec(), b"ab"));
}

#[test]
fn find_last_newline_finds_last() {
    let data = b"a;1.0\nbb;2.0\n";
    assert_eq!(find_last_newline(data, 0, data.len()), Some(12));
    assert_eq!(find_last_newline(data, 0, 8), Some(5));
    assert_eq!(find_last_newline(data, 0, 5), None);
}

#[test]
fn validate_accepts_well_formed() {
    assert!(validate(b"Hamburg;12.0\nOslo;-2.3\n"));
    assert!(validate(b""));
}

#[test]
fn validate_rejects_malformed() {
    assert!(!validate(b"Hamburg;12.0"));
    assert!(!validate(b"Hamburg12.0\n"));
    assert!(!validate(b";1.0\n"));
    assert!(!validate(b"Oslo;100.0\n"));
    assert!(!validate(b"Oslo;1.0\nrest"));
}

#[test]
fn parse_rejects_malformed() {
    assert!(matches!(parse(b"Hamburg;12.0"), Err(RunError::Malformed)));
    assert!(matches!(parse(b"x;,\n"), Err(RunError::Malformed)));
}

fn pairs_of(data: &[u8]) -> Vec<(Vec<u8>, Weather)> {
    get_map(data).expect("well-formed input")
}

#[test]
fn end_to_end_merged_table() {
    let data = b"Hamburg;12.0\nHamburg;8.5\nOslo;-2.3\n";
    let pairs = pairs_of(data);
    assert_eq!(pairs.len(), 2);
    assert_eq!(pairs[0].0, b"Hamburg".to_vec());
    assert_eq!(pairs[0].1.total, 2);
    assert_eq!(pairs[0].1.min, 85);
    assert_eq!(pairs[0].1.max, 120);
    assert_eq!(pairs[0].1.sum, 205);
    assert_eq!(pairs[1].0, b"Oslo".to_vec());
    assert_eq!(pairs[1].1.total, 1);
    assert_eq!(pairs[1].1.min, -23);
    assert_eq!(pairs[1].1.max, -23);
    assert_eq!(pairs[1].1.sum, -23);
}

#[test]
fn end_to_end_formatted_output() {
    let data = b"Hamburg;12.0\nHamburg;8.5\nOslo;-2.3\n";
    let out = run(data, 1).expect("single worker run");
    assert_eq!(out, b"{Hamburg=8.5/10.2/12.0, Oslo=-2.3/-2.3/-2.3}\n".to_vec());
}

#[test]
fn scaling_two_partitions_same_result() {
    let data = b"Hamburg;12.0\nHamburg;8.5\nOslo;-2.3\n";
    let out1 = run(data, 1).expect("one partition");
    let out2 = run(data, 2).expect("two partitions");
    assert_eq!(out1, out2);
}

#[test]
fn scaling_three_partitions_same_result() {
    // doubled input: the approximate split points land inside records,
    // forcing the snap back to the previous terminator
    let data = b"Hamburg;12.0\nHamburg;8.5\nOslo;-2.3\nHamburg;12.0\nHamburg;8.5\nOslo;-2.3\n";
    let out1 = run(data, 1).expect("one partition");
    let out3 = run(data, 3).expect("three partitions");
    assert_eq!(out1, out3);
}

#[test]
fn three_partitions_of_smallest_input_need_a_terminator_per_window() {
    // the first third of this buffer ends inside the opening record, and
    // snapping backward finds no terminator there: a fatal input-shape
    // violation
    let data = b"Hamburg;12.0\nHamburg;8.5\nOslo;-2.3\n";
    assert!(matches!(run(data, 3), Err(RunError::NoTerminator)));
}

#[test]
fn worker_counts_agree_on_larger_input() {
    let mut data = Vec::new();
    for i in 0..50 {
        let station = match i % 4 {
            0 => "Aab",
            1 => "Bcd",
            2 => "Cef",
            _ => "Dgh",
        };
        let whole = (i * 7) % 100;
        let frac = (i * 3) % 10;
        data.extend_from_slice(
            format!("{};{}{}.{}\n", station, if i % 2 == 0 { "-" } else { "" }, whole, frac)
                .as_bytes(),
        );
    }
    let out1 = run(&data, 1).expect("one worker");
    for workers in 2..8 {
        let outn = run(&data, workers).expect("several workers");
        assert_eq!(out1, outn);
    }
}

#[test]
fn merge_groupings_agree() {
    // merging per-partition tables in either grouping matches the
    // sequential pass
    let a = b"K;1.0\nL;2.0\n";
    let b = b"K;3.0\nM;4.0\n";
    let c = b"L;-5.0\nK;0.5\n";
    let mut whole = Vec::new();
    whole.extend_from_slice(a);
    whole.extend_from_slice(b);
    whole.extend_from_slice(c);

    let mut left = parse(a).unwrap();
    left.merge(parse(b).unwrap());
    left.merge(parse(c).unwrap());

    let mut right = parse(b).unwrap();
    right.merge(parse(c).unwrap());
    let mut right_outer = parse(a).unwrap();
    right_outer.merge(right);

    let seq_pairs = pairs_of(&whole);
    let left_pairs = sorted_pairs(left);
    let right_pairs = sorted_pairs(right_outer);
    let flat = |ps: &Vec<(Vec<u8>, Weather)>| {
        ps.iter()
            .map(|(k, w)| (k.clone(), w.total, w.min, w.max, w.sum))
            .collect::<Vec<_>>()
    };
    assert_eq!(flat(&seq_pairs), flat(&left_pairs));
    assert_eq!(flat(&seq_pairs), flat(&right_pairs));
}

#[test]
fn observe_order_does_not_matter() {
    let mut t1 = AggTable::new();
    t1.observe(b"X", 10);
    t1.observe(b"Y", -5);
    t1.observe(b"X", 3);

    let mut t2 = AggTable::new();
    t2.observe(b"X", 3);
    t2.observe(b"X", 10);
    t2.observe(b"Y", -5);

    let p1 = sorted_pairs(t1);
    let p2 = sorted_pairs(t2);
    let flat = |ps: &Vec<(Vec<u8>, Weather)>| {
        ps.iter()
            .map(|(k, w)| (k.clone(), w.total, w.min, w.max, w.sum))
            .collect::<Vec<_>>()
    };
    assert_eq!(flat(&p1), flat(&p2));
}

#[test]
fn partition_covers_buffer_without_splitting_records() {
    let data = b"Hamburg;12.0\nHamburg;8.5\nOslo;-2.3\nParis;1.1\n";
    let parts = partition(data, 3).expect("three partitions");
    assert_eq!(parts.len(), 3);
    assert_eq!(parts[0].0, 0);
    assert_eq!(parts[2].1, data.len());
    for i in 0..parts.len() - 1 {
        assert_eq!(parts[i].1, parts[i + 1].0);
        assert!(parts[i].0 < parts[i].1);
        assert_eq!(data[parts[i].1 - 1], b'\n');
    }
}

#[test]
fn partition_fails_without_terminator() {
    // three ways over a single long record: the first split window holds
    // no newline
    let data = b"Reykjavik;10.0\n";
    assert!(matches!(run(data, 5), Err(RunError::NoTerminator)));
    assert!(matches!(partition(data, 5), Err(RunError::NoTerminator)));
}

#[test]
fn empty_input_gives_empty_summary() {
    let out = run(b"", 1).expect("empty buffer, one worker");
    assert_eq!(out, b"{}\n".to_vec());
    assert!(pairs_of(b"").is_empty());
}

#[test]
fn single_record() {
    let data = b"A;0.3\n";
    let pairs = pairs_of(data);
    assert_eq!(pairs.len(), 1);
    assert_eq!(pairs[0].1.total, 1);
    assert_eq!(pairs[0].1.sum, 3);
    let out = run(data, 1).unwrap();
    assert_eq!(out, b"{A=0.3/0.3/0.3}\n".to_vec());
}

#[test]
fn mean_rounds_half_to_even() {
    assert_eq!(mean_tenths(205, 2), 102);
    assert_eq!(mean_tenths(15, 10), 2);
    assert_eq!(mean_tenths(25, 10), 2);
    assert_eq!(mean_tenths(-23, 1), -23);
    assert_eq!(mean_tenths(-15, 10), -2);
    assert_eq!(mean_tenths(7, 2), 4);
    assert_eq!(mean_tenths(-7, 2), -4);
}

#[test]
fn formatter_renders_entries() {
    let pairs = vec![
        (b"A".to_vec(), Weather { total: 1, min: -999, max: -999, sum: -999 }),
        (b"B".to_vec(), Weather { total: 2, min: 0, max: 10, sum: 10 }),
    ];
    let out = format_summary(&pairs);
    assert_eq!(out, b"{A=-99.9/-99.9/-99.9, B=0.0/0.5/1.0}\n".to_vec());
}

#[test]
fn lexicographic_order_of_names() {
    assert!(lex_less(&b"Ab".to_vec(), &b"B".to_vec()));
    assert!(lex_less(&b"A".to_vec(), &b"Ab".to_vec()));
    assert!(!lex_less(&b"Ab".to_vec(), &b"Ab".to_vec()));
    assert!(!lex_less(&b"B".to_vec(), &b"Ab".to_vec()));
}

#[test]
fn stations_sorted_by_bytes() {
    let data = b"Zeta;1.0\nAlpha;2.0\nMid;3.0\n";
    let pairs = pairs_of(data);
    let names: Vec<Vec<u8>> = pairs.iter().map(|(k, _)| k.clone()).collect();
    assert_eq!(names, vec![b"Alpha".to_vec(), b"Mid".to_vec(), b"Zeta".to_vec()]);
}

#[test]
fn workers_version_matches_sequential_map() {
    let data = b"Hamburg;12.0\nHamburg;8.5\nOslo;-2.3\n";
    let t = get_map_with_workers(data, 2).expect("two workers");
    let pairs = sorted_pairs(t);
    let direct = pairs_of(data);
    let flat = |ps: &Vec<(Vec<u8>, Weather)>| {
        ps.iter()
            .map(|(k, w)| (k.clone(), w.total, w.min, w.max, w.sum))
            .collect::<Vec<_>>()
    };
    assert_eq!(flat(&pairs), flat(&direct));
}

fn read_tenths(s: &[u8]) -> i64 {
    let (neg, rest) = if s[0] == b'-' { (true, &s[1..]) } else { (false, s) };
    let dot = rest.len() - 2;
    assert_eq!(rest[dot], b'.');
    let mut v: i64 = 0;
    for &b in &rest[..dot] {
        assert!(b.is_ascii_digit());
        v = v * 10 + (b - b'0') as i64;
    }
    v = v * 10 + (rest[rest.len() - 1] - b'0') as i64;
    if neg {
        -v
    } else {
        v
    }
}

fn read_envelope(out: &[u8]) -> Vec<(Vec<u8>, i64, i64, i64)> {
    assert_eq!(out[0], b'{');
    assert_eq!(&out[out.len() - 2..], b"}\n");
    let inner = &out[1..out.len() - 2];
    if inner.is_empty() {
        return Vec::new();
    }
    let mut entries = Vec::new();
    let text = inner.to_vec();
    let mut start: usize = 0;
    let mut splits = Vec::new();
    for p in 0..text.len().saturating_sub(1) {
        if text[p] == b',' && text[p + 1] == b' ' {
            splits.push(p);
        }
    }
    let mut segments = Vec::new();
    for p in splits {
        segments.push(&text[start..p]);
        start = p + 2;
    }
    segments.push(&text[start..]);
    for seg in segments {
        let eq = seg.iter().rposition(|&b| b == b'=').expect("separator");
        let name = seg[..eq].to_vec();
        let vals: Vec<&[u8]> = seg[eq + 1..].split(|&b| b == b'/').collect();
        assert_eq!(vals.len(), 3);
        entries.push((name, read_tenths(vals[0]), read_tenths(vals[1]), read_tenths(vals[2])));
    }
    entries
}

#[test]
fn output_round_trips_through_envelope_reader() {
    let data = b"Hamburg;12.0\nHamburg;8.5\nOslo;-2.3\n";
    let out = run(data, 1).expect("run");
    let read = read_envelope(&out);
    let pairs = pairs_of(data);
    assert_eq!(read.len(), pairs.len());
    for (got, (name, w)) in read.iter().zip(pairs.iter()) {
        assert_eq!(&got.0, name);
        assert_eq!(got.1, w.min as i64);
        assert_eq!(got.2, mean_tenths(w.sum, w.total));
        assert_eq!(got.3, w.max as i64);
    }
}

#[test]
fn empty_output_round_trips() {
    let out = run(b"", 1).expect("empty run");
    assert!(read_envelope(&out).is_empty());
}

#[test]
fn station_names_with_unusual_bytes() {
    // names may hold any byte but the field separator and the terminator,
    // an equals sign and non-ascii bytes included
    let data = "A=B;1.0\nZ\u{fc}rich;-0.5\n".as_bytes();
    let pairs = pairs_of(data);
    assert_eq!(pairs.len(), 2);
    assert_eq!(pairs[0].0, b"A=B".to_vec());
    assert_eq!(pairs[1].0, "Z\u{fc}rich".as_bytes().to_vec());
    let out = run(data, 1).expect("run");
    let read = read_envelope(&out);
    assert_eq!(read[0].0, b"A=B".to_vec());
    assert_eq!(read[0].1, 10);
    assert_eq!(read[1].2, -5);
}

#[test]
fn hasher_five_byte_key_uses_word_then_byte() {
    // five bytes mix as one four-byte little-endian word, then one byte
    let word = u32::from_le_bytes(*b"abcd") as u64;
    let s0 = (0u64 ^ word).wrapping_mul(SEED);
    let expected = (s0 ^ b'e' as u64).wrapping_mul(SEED);
    assert_eq!(hash_key(b"abcde"), expected);
}
