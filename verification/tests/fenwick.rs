use adder_codec_core::codec::compressed::fenwick::context_switching::{
    FenwickModel, Symbol, MAX_DENOMINATOR,
};
use adder_codec_core::codec::compressed::fenwick::{FenwickTree, MAX_ENTRIES};
use adder_codec_core::codec::compressed::stream::{
    coded_result, decoded_result, CoderFault, Contexts,
};
use adder_codec_core::codec::CodecError;
use arithmetic_coding::Model;

#[test]
fn tree_sums_and_finds() {
    let mut tree = FenwickTree::zeros(10);
    assert_eq!(tree.len(), 10);
    assert_eq!(tree.total(), 0);
    let counts = [3u64, 0, 5, 1, 0, 0, 7, 2, 9, 4];
    for (i, c) in counts.iter().enumerate() {
        tree.add(i, *c);
    }
    assert_eq!(tree.total(), 31);
    let mut sum = 0;
    for i in 0..10 {
        assert_eq!(tree.prefix_sum(i), sum);
        assert_eq!(tree.count(i), counts[i]);
        sum += counts[i];
    }
    assert_eq!(tree.prefix_sum(10), 31);
    // every number below the total falls into the entry whose share holds it
    let mut expected = Vec::new();
    for (i, c) in counts.iter().enumerate() {
        for _ in 0..*c {
            expected.push(i);
        }
    }
    for target in 0..31u64 {
        assert_eq!(tree.find(target), expected[target as usize]);
    }
    tree.add(1, 2);
    assert_eq!(tree.find(3), 1);
    assert_eq!(tree.find(4), 1);
    assert_eq!(tree.find(5), 2);
    assert_eq!(tree.total(), 33);
}

#[test]
fn tree_halves_rounding_up() {
    let mut tree = FenwickTree::zeros(5);
    for (i, c) in [1u64, 2, 3, 8, 0].iter().enumerate() {
        tree.add(i, *c);
    }
    tree.halve();
    let halved: Vec<u64> = (0..5).map(|i| tree.count(i)).collect();
    assert_eq!(halved, vec![1, 1, 2, 4, 0]);
    assert_eq!(tree.total(), 8);
    assert_eq!(tree.prefix_sum(3), 4);
    assert_eq!(tree.find(4), 3);
}

#[test]
fn uniform_tree_counts_each_entry_once() {
    let tree = FenwickTree::uniform(1000);
    assert_eq!(tree.total(), 1000);
    for i in [0usize, 1, 2, 511, 512, 513, 999] {
        assert_eq!(tree.prefix_sum(i), i as u64);
        assert_eq!(tree.find(i as u64), i);
    }
    assert_eq!(FenwickTree::zeros(0).total(), 0);
    assert_eq!(FenwickTree::uniform(1).find(0), 0);
    assert_eq!(MAX_ENTRIES, 1 << 28);
}

#[test]
fn model_shares_follow_the_counts() {
    let mut model = FenwickModel::new();
    assert_eq!(model.context_count(), 0);
    // a model without contexts knows only the end of the stream
    assert_eq!(model.probability(None).unwrap(), 0..1);
    assert!(model.probability(Some(&Symbol::Value(0))).is_err());
    assert_eq!(model.denominator(), 1);
    assert_eq!(model.symbol(0), None);

    assert_eq!(model.push_context(4), Some(0));
    assert_eq!(model.push_context(2), Some(1));
    assert_eq!(model.push_context(MAX_ENTRIES), None);
    assert_eq!(model.context_count(), 2);
    assert_eq!(model.current_context(), 0);
    assert_eq!(model.alphabet_size(0), Some(4));
    assert_eq!(model.alphabet_size(1), Some(2));
    assert_eq!(model.alphabet_size(2), None);
    assert_eq!(model.max_denominator(), MAX_DENOMINATOR);
    assert_eq!(model.denominator(), 5);
    assert_eq!(model.probability(None).unwrap(), 0..1);
    assert_eq!(model.probability(Some(&Symbol::Value(0))).unwrap(), 1..2);
    assert_eq!(model.probability(Some(&Symbol::Value(3))).unwrap(), 4..5);
    assert!(model.probability(Some(&Symbol::Value(4))).is_err());
    // a context is worth the whole table, and so costs nothing
    assert_eq!(model.probability(Some(&Symbol::Context(1))).unwrap(), 0..5);
    assert!(model.probability(Some(&Symbol::Context(2))).is_err());

    model.update(Some(&Symbol::Value(2)));
    model.update(Some(&Symbol::Value(2)));
    assert_eq!(model.denominator(), 7);
    assert_eq!(model.probability(Some(&Symbol::Value(2))).unwrap(), 3..6);
    assert_eq!(model.probability(Some(&Symbol::Value(3))).unwrap(), 6..7);
    assert_eq!(model.symbol(0), None);
    assert_eq!(model.symbol(1), Some(Symbol::Value(0)));
    assert_eq!(model.symbol(3), Some(Symbol::Value(2)));
    assert_eq!(model.symbol(5), Some(Symbol::Value(2)));
    assert_eq!(model.symbol(6), Some(Symbol::Value(3)));
    // what the model does not accept changes nothing
    model.update(Some(&Symbol::Value(9)));
    model.update(Some(&Symbol::Context(9)));
    assert_eq!(model.denominator(), 7);
    assert_eq!(model.current_context(), 0);

    model.update(Some(&Symbol::Context(1)));
    assert_eq!(model.current_context(), 1);
    assert_eq!(model.denominator(), 3);
    assert!(model.set_context(0));
    assert!(!model.set_context(2));
    assert_eq!(model.current_context(), 0);
    assert_eq!(model.denominator(), 7);
}

#[test]
fn outcomes_of_the_coder_are_reported() {
    assert_eq!(coded_result(Ok(vec![1, 2, 3])), Ok(vec![1, 2, 3]));
    assert_eq!(coded_result(Err(CoderFault::Sink)), Err(CodecError::WriteFailure));
    assert_eq!(coded_result(Err(CoderFault::Symbol)), Err(CodecError::WriteFailure));
    assert_eq!(decoded_result(Ok(None)), Ok(None));
    assert_eq!(decoded_result(Ok(Some(Symbol::Value(5)))), Ok(Some(5)));
    assert_eq!(
        decoded_result(Ok(Some(Symbol::Context(1)))),
        Err(CodecError::CorruptStream)
    );
    assert_eq!(
        decoded_result(Err(std::io::Error::from(std::io::ErrorKind::Other))),
        Err(CodecError::ReadFailure)
    );
    let contexts = Contexts::new();
    assert_eq!(
        (
            contexts.d_context,
            contexts.dt_context,
            contexts.u8_general_context,
            contexts.eof_context
        ),
        (0, 1, 2, 3)
    );
}
