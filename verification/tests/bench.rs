//! The block design and the grouping of its results.

use rseq::analysis::{analyze, bucket, Bucket, Sample};
use rseq::bench::{
    cpu_model, expected_total, highest_block_id, is_performance_governor, next_block_id,
    parse_cpu_list, read_rows, usable_mask, Arm, Rng, NARMS,
};
use rseq::text::{begins_with, comes_before, lines, parse_number, same, split, trim};

fn chars(s: &str) -> Vec<char> {
    s.chars().collect()
}

fn text(s: &[char]) -> String {
    s.iter().collect()
}

#[test]
fn generator_is_xorshift() {
    let mut r = Rng::from_seed(0);
    assert_eq!(r.state, 1);
    assert_eq!(r.next(), 5_180_492_295_206_395_165);
    assert_eq!(r.state, 0x200_0001);
    let mut r = Rng::from_seed(42);
    assert_eq!(r.state, 43);
    for _ in 0..1000 {
        r.next();
        assert_ne!(r.state, 0);
    }
}

#[test]
fn picks_are_in_range() {
    let mut r = Rng::from_seed(7);
    let mut s = Rng::from_seed(7);
    for n in 1..50 {
        assert_eq!(r.pick(n) as u64, s.next() % n as u64);
    }
}

#[test]
fn shuffles_are_permutations() {
    let mut r = Rng::from_seed(9);
    let mut moved = false;
    for _ in 0..20 {
        let mut arms = Arm::all();
        r.shuffle(&mut arms);
        moved = moved || arms != Arm::all();
        for a in Arm::all() {
            assert_eq!(arms.iter().filter(|x| **x == a).count(), 1);
        }
    }
    assert!(moved);
    // The last entry is exchanged first, with the one that the generator picks.
    let mut s = Rng::from_seed(9);
    let mut xs = vec![0, 1];
    let j = (s.next() % 2) as usize;
    Rng::from_seed(9).shuffle(&mut xs);
    assert_eq!(xs[1], j);
    let mut none: Vec<u8> = vec![];
    r.shuffle(&mut none);
    assert!(none.is_empty());
}

#[test]
fn arms() {
    assert_eq!(Arm::all().len(), NARMS);
    let names: Vec<&str> = Arm::all().into_iter().map(Arm::name).collect();
    assert_eq!(
        names,
        [
            "rseq-jit-pad",
            "rseq-jit-nopad",
            "rseq-asm-nopad",
            "atomic-shard",
            "atomic-shared",
            "mutex"
        ]
    );
    assert_eq!(Arm::JitPad.stride(), Some(8));
    assert_eq!(Arm::JitNopad.stride(), Some(1));
    assert_eq!(Arm::Mutex.stride(), None);
    assert_eq!(expected_total(3, 100), Some(300));
    assert_eq!(expected_total(2, u64::MAX), None);
}

#[test]
fn cpu_lists() {
    let mask = |s: &str| parse_cpu_list(&chars(s));
    assert_eq!(mask("0-3"), 0xf);
    assert_eq!(mask("0-3,8,10-11\n"), 0xd0f);
    assert_eq!(mask(""), 0);
    assert_eq!(mask(",,5"), 0x20);
    assert_eq!(mask(" 1 - 2 "), 6);
    assert_eq!(mask("62-70"), 0xc000_0000_0000_0000);
    assert_eq!(mask("64"), 0);
    assert_eq!(mask("7-5"), 0);
    // What is not a number counts as 0, or as the lower bound.
    assert_eq!(mask("x"), 1);
    assert_eq!(mask("3-y"), 8);
    assert_eq!(mask("-2"), 7);
    assert_eq!(usable_mask(&chars("0-3"), 0x6), Some(6));
    assert_eq!(usable_mask(&chars("0-3"), 0xf0), None);
}

#[test]
fn numbers() {
    let n = |s: &str| parse_number(&chars(s), 255);
    assert_eq!(n("0"), Some(0));
    assert_eq!(n("+7"), Some(7));
    assert_eq!(n("255"), Some(255));
    assert_eq!(n("0000255"), Some(255));
    assert_eq!(n("256"), None);
    assert_eq!(n("99999999999999999999999"), None);
    assert_eq!(n(""), None);
    assert_eq!(n("+"), None);
    assert_eq!(n("-1"), None);
    assert_eq!(n(" 1"), None);
    assert_eq!(n("1a"), None);
    assert_eq!(parse_number(&chars("18446744073709551615"), u64::MAX), Some(u64::MAX));
    assert_eq!(parse_number(&chars("18446744073709551616"), u64::MAX), None);
}

#[test]
fn texts() {
    let s = chars("a,,b");
    let parts: Vec<String> = split(&s, ',').into_iter().map(text).collect();
    assert_eq!(parts, ["a", "", "b"]);
    let s = chars("one\r\ntwo\n\nfour\r");
    let ls: Vec<String> = lines(&s).into_iter().map(text).collect();
    let want: Vec<&str> = "one\r\ntwo\n\nfour\r".lines().collect();
    assert_eq!(ls, want);
    assert_eq!(lines(&[]).len(), 0);
    assert_eq!(lines(&chars("x\n")).len(), 1);
    for t in ["  x y\t\n", "", " ", "\u{a0}\u{3000}z\u{2009}", "q"] {
        assert_eq!(text(trim(&chars(t))), t.trim());
    }
    assert!(same(&chars("ab"), &chars("ab")));
    assert!(!same(&chars("ab"), &chars("abc")));
    assert!(begins_with(&chars("block 1"), &chars("block")));
    assert!(!begins_with(&chars("blo"), &chars("block")));
    for (a, b) in [("", "a"), ("a", "b"), ("a", "aa"), ("B", "a"), ("x", "x"), ("\u{e9}", "z")] {
        assert_eq!(comes_before(&chars(a), &chars(b)), a < b);
        assert_eq!(comes_before(&chars(b), &chars(a)), b < a);
    }
}

#[test]
fn block_numbers_continue() {
    let s = "# cpu: x\nblock,domain,threads,ops,arm,ns,mops,aborts\n3,all,1,9,mutex,1,2.0,0\n\
             11,all\n7,all,1,9,mutex,1,2.0,0\nnonsense\n";
    assert_eq!(highest_block_id(&chars(s)), Some(11));
    assert_eq!(next_block_id(&chars(s)), 12);
    assert_eq!(highest_block_id(&chars("# 9,\n")), None);
    assert_eq!(next_block_id(&[]), 0);
}

#[test]
fn machine_facts() {
    assert!(is_performance_governor(&chars("performance\n")));
    assert!(!is_performance_governor(&chars("powersave\n")));
    let info = "processor : 0\nmodel name\t: Some CPU @ 2GHz \nmodel name : other\n";
    assert_eq!(cpu_model(&chars(info)).map(|m| text(&m)), Some("Some CPU @ 2GHz".to_string()));
    assert_eq!(cpu_model(&chars("model name")).map(|m| text(&m)), Some("?".to_string()));
    assert_eq!(cpu_model(&chars("processor : 0\n")), None);
}

#[test]
fn buckets() {
    let labels: Vec<&str> =
        [1, 2, 4, 5, 16, 17, 0].into_iter().map(|n| bucket(n).label()).collect();
    assert_eq!(labels, ["1", "2-4", "2-4", "5-16", "5-16", "17+", "17+"]);
    assert_eq!(bucket(3), Bucket::Few);
}

fn block(n: u64, domain: &str, threads: usize, arms: &[&str]) -> String {
    let mut s = String::new();
    for a in arms {
        s.push_str(&format!("{n},{domain},{threads},10,{a},5,1.50,2\n"));
    }
    s
}

const ALL: [&str; 6] =
    ["mutex", "rseq-jit-pad", "atomic-shard", "rseq-jit-nopad", "rseq-asm-nopad", "atomic-shared"];

#[test]
fn rows_are_read() {
    let files = vec![
        chars("# note\nblock,domain\n4,all,2,10,mutex,5,1.50,2\n\n1,2,3\n"),
        chars("x,pcore,y,+8,arm,0,fast,z\n"),
    ];
    let rows = read_rows(&files);
    assert_eq!(rows.len(), 2);
    assert_eq!((rows[0].file, rows[0].block, rows[0].threads), (0, 4, 2));
    assert_eq!((rows[0].ops, rows[0].aborts), (10, 2));
    assert_eq!((text(&rows[0].domain), text(&rows[0].arm)), ("all".into(), "mutex".into()));
    assert_eq!(text(&rows[0].mops), "1.50");
    assert_eq!((rows[1].file, rows[1].block, rows[1].threads, rows[1].ops), (1, 0, 0, 8));
    assert_eq!((rows[1].aborts, text(&rows[1].mops)), (0, "fast".into()));
}

#[test]
fn complete_blocks_are_paired() {
    let mut s = block(1, "all", 2, &ALL);
    s.push_str(&block(0, "all", 1, &ALL));
    // An interrupted block, and one in another file with the same number.
    s.push_str(&block(2, "all", 2, &ALL[..3]));
    let other = block(1, "all", 3, &ALL);
    let rows = read_rows(&vec![chars(&s), chars(&other)]);
    let a = analyze(&rows);
    assert_eq!(a.dropped, 1);
    let keys: Vec<(String, &str, String)> =
        a.cells.iter().map(|c| (text(&c.domain), c.bucket.label(), text(&c.arm))).collect();
    assert_eq!(keys.len(), 12);
    let mut sorted = keys.clone();
    sorted.sort();
    assert_eq!(keys, sorted);
    assert_eq!(keys[0], ("all".to_string(), "1", "atomic-shard".to_string()));
    // Block 0 of the first file is in rows 6 to 11; block 1 in rows 0 to 5 and,
    // of the second file, 15 to 20.
    assert_eq!(a.cells[0].samples, vec![Sample { row: 8, baseline: Some(6) }]);
    let few: Vec<&Vec<Sample>> = a
        .cells
        .iter()
        .filter(|c| c.bucket == Bucket::Few && text(&c.arm) == "rseq-jit-pad")
        .map(|c| &c.samples)
        .collect();
    assert_eq!(
        few,
        [&vec![
            Sample { row: 1, baseline: Some(0) },
            Sample { row: 16, baseline: Some(15) }
        ]]
    );
    // Aborts are tallied for every row of the arm, complete block or not.
    assert_eq!(a.aborts.len(), 2);
    assert_eq!((a.aborts[0].bucket, a.aborts[0].rows.clone()), (Bucket::One, vec![10]));
    assert_eq!((a.aborts[1].bucket, a.aborts[1].rows.clone()), (Bucket::Few, vec![4, 19]));
}

#[test]
fn repeated_arms_replace_each_other() {
    let mut s = block(0, "all", 1, &ALL);
    s.push_str(&block(0, "late", 9, &["mutex"]));
    let a = analyze(&read_rows(&vec![chars(&s)]));
    assert_eq!(a.dropped, 0);
    assert_eq!(a.cells.len(), 6);
    for c in &a.cells {
        // The place is that of the first row of the block.
        assert_eq!((text(&c.domain), c.bucket), ("all".to_string(), Bucket::One));
        assert_eq!(c.samples.len(), 1);
        assert_eq!(c.samples[0].baseline, Some(6));
    }
    // Any six arms make a block; without a mutex there is no baseline.
    let other = ["a", "b", "c", "d", "e", "f"];
    let a = analyze(&read_rows(&vec![chars(&block(0, "all", 1, &other))]));
    assert_eq!(a.cells.len(), 6);
    assert_eq!(a.cells[2].samples, vec![Sample { row: 2, baseline: None }]);
}
