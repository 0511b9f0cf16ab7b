#![allow(dead_code, unused_imports, unused_variables, unused_mut)]

use biodivine_algo_bdd_scc::algorithm_trait::{
    Completable, Computation, CounterStep, Generator, Incomplete, NumberStep,
};

type CounterComputation = Computation<usize, usize, usize, CounterStep>;

#[test]
fn simple_computation() {
    let result = CounterComputation::run(10usize, 0usize).unwrap();
    assert_eq!(result, 10);
}

type NumberGenerator = Generator<(), usize, usize, NumberStep>;

#[test]
fn foo() {
    let generator = NumberGenerator::configure((), 10usize);
    let computation = generator.computation();
    let result = computation.compute().unwrap();
    println!("Computation result: {:?}", result);
    assert_eq!(result, (11..=100).collect::<Vec<usize>>());

    let mut generator = NumberGenerator::configure((), 20usize);
    let mut count = 0;
    while let Some(item) = generator.next() {
        println!("{:?}", item.unwrap());
        count += 1;
    }
    assert_eq!(count, 80);
}

#[test]
fn computation_can_be_polled() {
    let mut computation = CounterComputation::configure(6usize, 3usize);
    assert_eq!(computation.try_compute(), Err(Incomplete::Working));
    assert_eq!(computation.try_compute(), Err(Incomplete::Working));
    assert_eq!(computation.try_compute(), Err(Incomplete::Working));
    assert_eq!(computation.try_compute(), Ok(&6));
    assert_eq!(computation.try_compute(), Ok(&6));
    assert_eq!(computation.output_ref(), Some(&6));
    assert!(computation.state_ref().is_none());
    assert_eq!(*computation.context_ref(), 6);
}
