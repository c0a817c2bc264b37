use rust_2048_solver::accumulator::fraction::{Fraction, Weighted, WeightedAverage};
use rust_2048_solver::accumulator::Accumulator;
use rust_2048_solver::bots::model::prioritized::Prioritized;
use rust_2048_solver::bots::model::EvaluationEntry;

#[test]
fn fraction_evaluates_by_division() {
    let f = Fraction { numerator: 7u32, denominator: 2u32 };
    assert_eq!(f.evaluate(), 3);
    let g = Fraction { numerator: 1.5f64, denominator: 0.5f64 };
    assert_eq!(g.evaluate(), 3.0);
}

#[test]
fn weighted_average_evaluates_its_fraction() {
    let avg = WeightedAverage(Fraction { numerator: 10.0f64, denominator: 4.0f64 });
    assert_eq!(avg.evaluate(), 2.5);
}

#[test]
fn weighted_values() {
    let w = Weighted::new_weighted(3u16, 4u16);
    assert_eq!(w.value, 3);
    assert_eq!(w.weight, 4);
    assert_eq!(w.evaluate(), 12);
    let doubled = w.map(|v| v * 2);
    assert_eq!(doubled.value, 6);
    assert_eq!(doubled.weight, 4);
}

#[test]
fn accumulator_starts_empty() {
    let acc: Accumulator<u8, f64> = Accumulator::new();
    assert!(acc.memory.is_empty());
    let acc: Accumulator<u8, f64> = Accumulator::default();
    assert!(acc.memory.is_empty());
}

#[test]
fn prioritized_higher_priority_wins() {
    let low = Prioritized { value: 5u32, priority: 1u8 };
    let high = Prioritized { value: 7u32, priority: 2u8 };
    assert_eq!(low.add(high).value, 7);
    assert_eq!(high.add(low).value, 7);
    let same = Prioritized { value: 3u32, priority: 1u8 };
    let sum = low.add(same);
    assert_eq!((sum.value, sum.priority), (8, 1));
}

#[test]
fn evaluation_entry_default() {
    let entry: EvaluationEntry<u8, u32> = EvaluationEntry::default();
    assert_eq!(entry, EvaluationEntry { priority: 0, value: 0 });
}
