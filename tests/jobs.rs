use pixelsort::buffer::PixelBuffer;
use pixelsort::job::{combinations, output_file_name, plan_writes, RunTotals, Strategy};
use pixelsort::pixel::{Criterion, Pixel};
use pixelsort::sort::{basic_sort, checker_sort};

#[test]
fn file_names() {
    assert_eq!(output_file_name(Strategy::Basic, Criterion::Hue), "Basic-Hue.png");
    assert_eq!(
        output_file_name(Strategy::Checker, Criterion::Saturation),
        "Checker-Saturation.png"
    );
}

#[test]
fn every_combination_once() {
    let all = combinations();
    assert_eq!(all.len(), 14);
    assert_eq!(all[0], (Strategy::Basic, Criterion::Red));
    assert_eq!(all[6], (Strategy::Basic, Criterion::Lightness));
    assert_eq!(all[7], (Strategy::Checker, Criterion::Red));
    assert_eq!(all[13], (Strategy::Checker, Criterion::Lightness));
    let mut names: Vec<String> = all.iter().map(|(s, c)| output_file_name(*s, *c)).collect();
    names.sort();
    names.dedup();
    assert_eq!(names.len(), 14);
}

#[test]
fn plan_skips_existing_outputs() {
    assert_eq!(plan_writes(&vec![false, true, false, true]), vec![0, 2]);
    assert_eq!(plan_writes(&vec![]), Vec::<usize>::new());
}

#[test]
fn rerun_writes_nothing() {
    let mut exists = vec![false; 14];
    exists[3] = true;
    let first = plan_writes(&exists);
    assert_eq!(first.len(), 13);
    for i in first {
        exists[i] = true;
    }
    assert!(plan_writes(&exists).is_empty());
}

#[test]
fn strategies_dispatch() {
    let pixels: Vec<Pixel> = (0..6u8).map(|i| Pixel::new(200 - i, i, 0)).collect();
    let buf = PixelBuffer::from_pixels(3, 2, pixels).unwrap();
    assert_eq!(
        Strategy::Basic.apply(&buf, Criterion::Red).pixels,
        basic_sort(&buf, Criterion::Red).pixels
    );
    assert_eq!(
        Strategy::Checker.apply(&buf, Criterion::Red).pixels,
        checker_sort(&buf, Criterion::Red).pixels
    );
    assert_eq!(Strategy::Basic.name(), "Basic");
    assert_eq!(Strategy::all(), vec![Strategy::Basic, Strategy::Checker]);
}

#[test]
fn totals_add_up_and_saturate() {
    let mut t = RunTotals::new();
    t.record(48);
    t.record(300);
    assert_eq!(t.bytes, 348);
    t.record(u128::MAX);
    assert_eq!(t.bytes, u128::MAX);
}
