use std::collections::HashMap;
use weighted_rs::{RandWeight, RoundrobinWeight, SmoothWeight, Weight};

#[test]
fn test_rr_weight() {
    let mut rrw: RoundrobinWeight<&str> = RoundrobinWeight::new();
    rrw.add("server1", 5);
    rrw.add("server2", 2);
    rrw.add("server3", 3);

    let mut results: HashMap<&str, usize> = HashMap::new();

    for _ in 0..100 {
        let s = rrw.next().unwrap();
        *results.entry(s).or_insert(0) += 1;
    }

    assert_eq!(results["server1"], 50);
    assert_eq!(results["server2"], 20);
    assert_eq!(results["server3"], 30);
}

#[test]
fn test_smooth_weight() {
    let mut sw: SmoothWeight<&str> = SmoothWeight::new();
    sw.add("server1", 5);
    sw.add("server2", 2);
    sw.add("server3", 3);

    let mut results: HashMap<&str, usize> = HashMap::new();

    for _ in 0..100 {
        let s = sw.next().unwrap();
        *results.entry(s).or_insert(0) += 1;
    }

    assert_eq!(results["server1"], 50);
    assert_eq!(results["server2"], 20);
    assert_eq!(results["server3"], 30);
}

#[test]
fn random_weight_test_smooth_weight() {
    let mut sw: RandWeight<&str> = RandWeight::new();
    sw.add("server1", 5);
    sw.add("server2", 2);
    sw.add("server3", 3);

    let mut results: HashMap<&str, usize> = HashMap::new();

    for _ in 0..10000 {
        let s = sw.next().unwrap();
        *results.entry(s).or_insert(0) += 1;
    }

    println!("{:?}", results);
}

// Exact proportionality of the deterministic selectors: weights {5,2,3}
// over exactly 10 calls select each candidate exactly its weight's worth.
#[test]
fn test_rr_proportionality_one_cycle() {
    let mut rrw: RoundrobinWeight<u32> = RoundrobinWeight::new();
    rrw.add(1, 5);
    rrw.add(2, 2);
    rrw.add(3, 3);

    let mut counts: [usize; 3] = [0, 0, 0];
    for _ in 0..10 {
        let s = rrw.next().unwrap();
        counts[(s - 1) as usize] += 1;
    }
    assert_eq!(counts, [5, 2, 3]);
}

#[test]
fn test_smooth_proportionality_one_cycle() {
    let mut sw: SmoothWeight<u32> = SmoothWeight::new();
    sw.add(1, 5);
    sw.add(2, 2);
    sw.add(3, 3);

    let mut counts: [usize; 3] = [0, 0, 0];
    for _ in 0..10 {
        let s = sw.next().unwrap();
        counts[(s - 1) as usize] += 1;
    }
    assert_eq!(counts, [5, 2, 3]);
}

// The exact LVS selection order for weights {5,2,3}.
#[test]
fn test_rr_sequence() {
    let mut rrw: RoundrobinWeight<&str> = RoundrobinWeight::new();
    rrw.add("a", 5);
    rrw.add("b", 2);
    rrw.add("c", 3);

    let mut seq: Vec<&str> = Vec::new();
    for _ in 0..10 {
        seq.push(rrw.next().unwrap());
    }
    assert_eq!(seq, vec!["a", "a", "a", "c", "a", "b", "c", "a", "b", "c"]);
}

// The smooth interleaving shape: weights {5,1,1} begin `a a b a c a a`.
#[test]
fn test_smooth_interleaving() {
    let mut sw: SmoothWeight<&str> = SmoothWeight::new();
    sw.add("a", 5);
    sw.add("b", 1);
    sw.add("c", 1);

    let mut seq: Vec<&str> = Vec::new();
    for _ in 0..7 {
        seq.push(sw.next().unwrap());
    }
    assert_eq!(seq, vec!["a", "a", "b", "a", "c", "a", "a"]);
}

// Statistical proportionality of the random selector, within a generous
// tolerance.
#[test]
fn test_random_proportionality() {
    let mut rw: RandWeight<&str> = RandWeight::new();
    rw.add("server1", 5);
    rw.add("server2", 2);
    rw.add("server3", 3);

    let mut results: HashMap<&str, usize> = HashMap::new();
    for _ in 0..10000 {
        let s = rw.next().unwrap();
        *results.entry(s).or_insert(0) += 1;
    }

    let c1 = *results.get("server1").unwrap_or(&0);
    let c2 = *results.get("server2").unwrap_or(&0);
    let c3 = *results.get("server3").unwrap_or(&0);
    assert_eq!(c1 + c2 + c3, 10000);
    assert!(c1 >= 4000 && c1 <= 6000, "server1: {}", c1);
    assert!(c2 >= 1000 && c2 <= 3000, "server2: {}", c2);
    assert!(c3 >= 2000 && c3 <= 4000, "server3: {}", c3);
}

// A draw that ignored its bound and echoed it back would make the walk end
// on the last entry every time; with equal weights both entries must show.
#[test]
fn test_random_draw_varies() {
    let mut rw: RandWeight<&str> = RandWeight::new();
    rw.add("first", 1);
    rw.add("second", 1);

    let mut saw_first = false;
    let mut saw_second = false;
    for _ in 0..500 {
        match rw.next().unwrap() {
            "first" => saw_first = true,
            "second" => saw_second = true,
            _ => unreachable!(),
        }
    }
    assert!(saw_first && saw_second);
}

// A selector with one entry returns that entry on every call whatever the
// sign of its weight; a selector with no entries returns nothing.
#[test]
fn test_single_and_zero_entries() {
    let mut rrw: RoundrobinWeight<&str> = RoundrobinWeight::new();
    assert_eq!(rrw.next(), None);
    rrw.add("only", 0);
    for _ in 0..5 {
        assert_eq!(rrw.next(), Some("only"));
    }

    let mut sw: SmoothWeight<&str> = SmoothWeight::new();
    assert_eq!(sw.next(), None);
    sw.add("only", -7);
    for _ in 0..5 {
        assert_eq!(sw.next(), Some("only"));
    }

    let mut rw: RandWeight<&str> = RandWeight::new();
    assert_eq!(rw.next(), None);
    rw.add("only", -1);
    for _ in 0..5 {
        assert_eq!(rw.next(), Some("only"));
    }
}

// With two or more entries and no positive weight, nothing is eligible.
#[test]
fn test_no_eligible_entries() {
    let mut rrw: RoundrobinWeight<&str> = RoundrobinWeight::new();
    rrw.add("a", 0);
    rrw.add("b", -3);
    for _ in 0..5 {
        assert_eq!(rrw.next(), None);
    }

    let mut rw: RandWeight<&str> = RandWeight::new();
    rw.add("a", 0);
    rw.add("b", -3);
    for _ in 0..5 {
        assert_eq!(rw.next(), None);
    }
}

// remove_all clears entries and aggregates alike: re-added weights behave
// exactly as on a fresh selector.
#[test]
fn test_remove_all_clears() {
    let mut rrw: RoundrobinWeight<&str> = RoundrobinWeight::new();
    rrw.add("a", 5);
    rrw.add("b", 2);
    rrw.add("c", 3);
    for _ in 0..4 {
        rrw.next().unwrap();
    }
    rrw.remove_all();
    assert!(rrw.all().is_empty());
    assert_eq!(rrw.next(), None);

    rrw.add("x", 2);
    rrw.add("y", 4);
    let mut fresh: RoundrobinWeight<&str> = RoundrobinWeight::new();
    fresh.add("x", 2);
    fresh.add("y", 4);
    for _ in 0..12 {
        assert_eq!(rrw.next(), fresh.next());
    }

    let mut sw: SmoothWeight<&str> = SmoothWeight::new();
    sw.add("a", 5);
    sw.add("b", 1);
    sw.next().unwrap();
    sw.remove_all();
    assert!(sw.all().is_empty());
    assert_eq!(sw.next(), None);

    let mut rw: RandWeight<&str> = RandWeight::new();
    rw.add("a", 5);
    rw.remove_all();
    assert!(rw.all().is_empty());
    assert_eq!(rw.next(), None);
}

// reset keeps the configuration and restarts the selection sequence from
// the same point as a freshly built selector with the same entries.
#[test]
fn test_reset_restarts() {
    let mut rrw: RoundrobinWeight<&str> = RoundrobinWeight::new();
    rrw.add("a", 5);
    rrw.add("b", 2);
    rrw.add("c", 3);
    let before = rrw.all();
    for _ in 0..4 {
        rrw.next().unwrap();
    }
    rrw.reset();
    assert_eq!(rrw.all(), before);

    let mut fresh: RoundrobinWeight<&str> = RoundrobinWeight::new();
    fresh.add("a", 5);
    fresh.add("b", 2);
    fresh.add("c", 3);
    for _ in 0..10 {
        assert_eq!(rrw.next(), fresh.next());
    }

    let mut sw: SmoothWeight<&str> = SmoothWeight::new();
    sw.add("a", 5);
    sw.add("b", 2);
    sw.add("c", 3);
    let sw_before = sw.all();
    for _ in 0..4 {
        sw.next().unwrap();
    }
    sw.reset();
    assert_eq!(sw.all(), sw_before);

    let mut sw_fresh: SmoothWeight<&str> = SmoothWeight::new();
    sw_fresh.add("a", 5);
    sw_fresh.add("b", 2);
    sw_fresh.add("c", 3);
    for _ in 0..10 {
        assert_eq!(sw.next(), sw_fresh.next());
    }
}

// all() is a pure snapshot: repeated calls agree and never advance the
// selection, and next() leaves the enumeration untouched.
#[test]
fn test_all_idempotent() {
    let mut rrw: RoundrobinWeight<&str> = RoundrobinWeight::new();
    rrw.add("a", 5);
    rrw.add("b", 2);
    let snap1 = rrw.all();
    let snap2 = rrw.all();
    assert_eq!(snap1, snap2);
    assert_eq!(snap1, vec![("a", 5), ("b", 2)]);

    let first = rrw.next();
    let snap3 = rrw.all();
    assert_eq!(snap1, snap3);

    let mut fresh: RoundrobinWeight<&str> = RoundrobinWeight::new();
    fresh.add("a", 5);
    fresh.add("b", 2);
    assert_eq!(first, fresh.next());

    let mut sw: SmoothWeight<&str> = SmoothWeight::new();
    sw.add("a", 1);
    sw.add("b", 2);
    assert_eq!(sw.all(), sw.all());
    sw.next().unwrap();
    assert_eq!(sw.all(), vec![("a", 1), ("b", 2)]);

    let mut rw: RandWeight<&str> = RandWeight::new();
    rw.add("a", 1);
    rw.add("b", 2);
    assert_eq!(rw.all(), rw.all());
    rw.next().unwrap();
    assert_eq!(rw.all(), vec![("a", 1), ("b", 2)]);
}

fn collect_next<W: Weight>(sel: &mut W, n: usize) -> Vec<Option<W::Item>> {
    let mut out = Vec::new();
    for _ in 0..n {
        out.push(sel.next());
    }
    out
}

// The shared contract is usable through the trait itself, with the same
// behaviour as the concrete methods.
#[test]
fn test_trait_dispatch() {
    let mut rrw: RoundrobinWeight<&str> = RoundrobinWeight::new();
    Weight::add(&mut rrw, "a", 2);
    Weight::add(&mut rrw, "b", 1);
    assert_eq!(collect_next(&mut rrw, 3), vec![Some("a"), Some("a"), Some("b")]);
    assert_eq!(Weight::all(&rrw), vec![("a", 2), ("b", 1)]);
    Weight::remove_all(&mut rrw);
    assert_eq!(collect_next(&mut rrw, 1), vec![None]);

    let mut sw: SmoothWeight<&str> = SmoothWeight::new();
    Weight::add(&mut sw, "a", 2);
    Weight::add(&mut sw, "b", 1);
    assert_eq!(collect_next(&mut sw, 3), vec![Some("a"), Some("b"), Some("a")]);
    Weight::reset(&mut sw);
    assert_eq!(collect_next(&mut sw, 3), vec![Some("a"), Some("b"), Some("a")]);

    let mut rw: RandWeight<&str> = RandWeight::new();
    Weight::add(&mut rw, "only", 4);
    assert_eq!(collect_next(&mut rw, 2), vec![Some("only"), Some("only")]);
}

// Duplicate candidates are independent entries whose weights split the
// share; counts accrue per entry position in the deterministic policies.
#[test]
fn test_duplicate_entries() {
    let mut sw: SmoothWeight<&str> = SmoothWeight::new();
    sw.add("a", 2);
    sw.add("a", 2);
    sw.add("b", 1);
    let mut a_count: usize = 0;
    let mut b_count: usize = 0;
    for _ in 0..5 {
        match sw.next().unwrap() {
            "a" => a_count += 1,
            _ => b_count += 1,
        }
    }
    assert_eq!(a_count, 4);
    assert_eq!(b_count, 1);
}
