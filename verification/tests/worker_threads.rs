use std::cell::Cell;

use esync::worker_threads::process;

#[test]
fn process_string() {
    let my_string = "aoigmndeoinaonaoibndf
    dfnwfdbinwefboinwfbisnaina
    ainbainaoinfbf;oainq
    aonaoinaonaib
    aoibnaoibnbaopin
    ainaboaibndsoinasdobnias
    aosibnaosidbnaosbfinab
    aobniaobinasdobina
    aobinasboindofbinosin
    oisndboinapoana
    onsbsoinbfsoidna
    ionfbsoianobian
    odsifnboainabfbd
    bdfosinbaonaoinon
    bsoidnfbsoinabf";

    let s: Vec<&str> = my_string.split_ascii_whitespace().collect();
    let r = process(s, |p: &str| p.matches("a").count(), 2);
    assert_eq!(42, r.into_iter().reduce(|acc, e| acc + e).unwrap());
}

#[test]
fn squares_sum_to_fifty_five() {
    let vec = vec![1, 2, 3, 4, 5];
    let result = process(vec, |x: i32| x * x, 2);
    let total: i32 = result.into_iter().sum();
    assert_eq!(1 + 4 + 9 + 16 + 25, total);
}

#[test]
fn empty_input_gives_empty_output() {
    let r = process(Vec::<i32>::new(), |x: i32| x + 1, 3);
    assert!(r.is_empty());
}

#[test]
fn one_result_per_item_as_multiset() {
    let r = process(vec![2u64, 2, 5], |x: u64| x * 10, 1);
    assert_eq!(3, r.len());
    let mut sorted = r.clone();
    sorted.sort();
    assert_eq!(vec![20u64, 20, 50], sorted);
}

#[test]
fn in_flight_high_water_mark_within_bound() {
    // an instrumented transform tracks how many applications overlap
    let active: Cell<u32> = Cell::new(0);
    let high: Cell<u32> = Cell::new(0);
    let items: Vec<u32> = (0u32..20).collect();
    let r = process(
        items,
        |x: u32| {
            active.set(active.get() + 1);
            if active.get() > high.get() {
                high.set(active.get());
            }
            let y = x + 1;
            active.set(active.get() - 1);
            y
        },
        2,
    );
    assert_eq!(20, r.len());
    assert!(high.get() <= 2);
}

#[test]
fn one_worker_runs_sequentially() {
    let active: Cell<u32> = Cell::new(0);
    let high: Cell<u32> = Cell::new(0);
    let items: Vec<u32> = (0u32..10).collect();
    let r = process(
        items,
        |x: u32| {
            active.set(active.get() + 1);
            if active.get() > high.get() {
                high.set(active.get());
            }
            let y = x * 2;
            active.set(active.get() - 1);
            y
        },
        1,
    );
    assert_eq!(10, r.len());
    assert_eq!(1, high.get());
}
