use dmx_relay::config::{validate_bindings, Address, Config, ConfigError, Mapping};
use dmx_relay::subscription::{first_repeat, input_universes, subscription};
use dmx_relay::table::{MappingTable, Target};

fn binding(inputs: &[u16], outputs: &[u16], address: Address) -> Mapping {
    Mapping { input_universes: inputs.to_vec(), output_universes: outputs.to_vec(), address }
}

const FIRST: Address = Address::V4([10, 0, 0, 5]);
const SECOND: Address = Address::V4([192, 168, 1, 20]);

#[test]
fn build_pairs_inputs_with_outputs_by_position() {
    let table = MappingTable::build(&vec![binding(&[1, 2, 3], &[11, 12, 13], FIRST)]).unwrap();
    assert_eq!(table.len(), 3);
    assert_eq!(table.lookup(1), Some(Target { universe: 11, address: FIRST }));
    assert_eq!(table.lookup(2), Some(Target { universe: 12, address: FIRST }));
    assert_eq!(table.lookup(3), Some(Target { universe: 13, address: FIRST }));
}

#[test]
fn build_holds_one_entry_per_input_universe() {
    let bindings = vec![
        binding(&[1, 2], &[5, 6], FIRST),
        binding(&[], &[], SECOND),
        binding(&[7, 8, 9], &[1, 2, 3], SECOND),
    ];
    let table = MappingTable::build(&bindings).unwrap();
    assert_eq!(table.len(), 5);
    assert_eq!(table.lookup(9), Some(Target { universe: 3, address: SECOND }));
}

#[test]
fn build_counts_an_overwritten_universe_once() {
    let bindings =
        vec![binding(&[1, 2, 1], &[5, 6, 7], FIRST), binding(&[2, 3], &[8, 9], SECOND)];
    let table = MappingTable::build(&bindings).unwrap();
    // five insertions, two of which replaced an earlier one
    assert_eq!(table.len(), 3);
}

#[test]
fn build_of_no_bindings_is_empty() {
    let table = MappingTable::build(&Vec::new()).unwrap();
    assert_eq!(table.len(), 0);
    assert_eq!(table.lookup(1), None);
}

#[test]
fn lookup_misses_a_universe_that_is_not_bound() {
    let table = MappingTable::build(&vec![binding(&[4], &[40], FIRST)]).unwrap();
    assert_eq!(table.lookup(5), None);
    assert_eq!(table.lookup(40), None);
    assert_eq!(table.lookup(0), None);
}

#[test]
fn build_rejects_more_inputs_than_outputs() {
    let bindings = vec![binding(&[1], &[2], FIRST), binding(&[1, 2, 3], &[4, 5], SECOND)];
    let error = MappingTable::build(&bindings).err();
    assert_eq!(error, Some(ConfigError::LengthMismatch { mapping: 1, inputs: 3, outputs: 2 }));
}

#[test]
fn build_rejects_more_outputs_than_inputs() {
    let bindings = vec![binding(&[], &[9], FIRST)];
    let error = MappingTable::build(&bindings).err();
    assert_eq!(error, Some(ConfigError::LengthMismatch { mapping: 0, inputs: 0, outputs: 1 }));
}

#[test]
fn build_names_the_first_binding_that_is_not_paired() {
    let bindings = vec![
        binding(&[1], &[2], FIRST),
        binding(&[3, 4], &[5], FIRST),
        binding(&[6], &[7, 8], SECOND),
    ];
    let error = MappingTable::build(&bindings).err();
    assert_eq!(error, Some(ConfigError::LengthMismatch { mapping: 1, inputs: 2, outputs: 1 }));
}

#[test]
fn validate_accepts_what_build_accepts() {
    let good = vec![binding(&[1, 2], &[3, 4], FIRST), binding(&[5], &[6], SECOND)];
    assert_eq!(validate_bindings(&good), Ok(()));
    assert!(MappingTable::build(&good).is_ok());
    let config = Config { mappings: good };
    assert_eq!(config.validate(), Ok(()));
}

#[test]
fn validate_rejects_what_build_rejects() {
    let bad = vec![binding(&[1, 2], &[3, 4], FIRST), binding(&[5], &[], SECOND)];
    let expected = ConfigError::LengthMismatch { mapping: 1, inputs: 1, outputs: 0 };
    assert_eq!(validate_bindings(&bad), Err(expected));
    assert_eq!(MappingTable::build(&bad).err(), Some(expected));
    let config = Config { mappings: bad };
    assert_eq!(config.validate(), Err(expected));
}

#[test]
fn last_binding_wins_for_a_universe_bound_twice() {
    let bindings = vec![binding(&[7], &[100], FIRST), binding(&[7], &[200], SECOND)];
    let table = MappingTable::build(&bindings).unwrap();
    assert_eq!(table.len(), 1);
    assert_eq!(table.lookup(7), Some(Target { universe: 200, address: SECOND }));

    let swapped = vec![binding(&[7], &[200], SECOND), binding(&[7], &[100], FIRST)];
    let table = MappingTable::build(&swapped).unwrap();
    assert_eq!(table.lookup(7), Some(Target { universe: 100, address: FIRST }));
}

#[test]
fn last_position_wins_within_one_binding() {
    let table = MappingTable::build(&vec![binding(&[7, 8, 7], &[1, 2, 3], FIRST)]).unwrap();
    assert_eq!(table.len(), 2);
    assert_eq!(table.lookup(7), Some(Target { universe: 3, address: FIRST }));
    assert_eq!(table.lookup(8), Some(Target { universe: 2, address: FIRST }));
}

#[test]
fn table_keeps_ipv6_addresses() {
    let address = Address::V6([0x20, 0x01, 0x0d, 0xb8, 0, 0, 0, 0, 0, 0, 0, 0, 0, 0, 0, 1]);
    let table = MappingTable::build(&vec![binding(&[65535], &[0], address)]).unwrap();
    assert_eq!(table.lookup(65535), Some(Target { universe: 0, address }));
}

#[test]
fn subscription_lists_each_input_universe_once_in_first_order() {
    let bindings = vec![
        binding(&[3, 1, 3], &[0, 0, 0], FIRST),
        binding(&[], &[], FIRST),
        binding(&[2, 1, 9], &[0, 0, 0], SECOND),
    ];
    assert_eq!(subscription(&bindings), vec![3, 1, 2, 9]);
}

#[test]
fn subscription_of_no_bindings_is_empty() {
    assert_eq!(subscription(&Vec::new()), Vec::<u16>::new());
}

#[test]
fn subscription_covers_exactly_the_table() {
    let bindings =
        vec![binding(&[5, 6, 5], &[1, 2, 3], FIRST), binding(&[6, 7], &[4, 5], SECOND)];
    let table = MappingTable::build(&bindings).unwrap();
    let universes = subscription(&bindings);
    assert_eq!(universes.len(), table.len());
    for universe in 0..=20u16 {
        assert_eq!(universes.contains(&universe), table.lookup(universe).is_some());
    }
}

#[test]
fn input_universes_are_listed_as_written() {
    let bindings = vec![
        binding(&[3, 1, 3], &[0, 0, 0], FIRST),
        binding(&[], &[], FIRST),
        binding(&[2, 1], &[0, 0], SECOND),
    ];
    assert_eq!(input_universes(&bindings), vec![3, 1, 3, 2, 1]);
    assert_eq!(input_universes(&Vec::new()), Vec::<u16>::new());
}

#[test]
fn first_repeat_finds_none_where_all_differ() {
    assert_eq!(first_repeat(&vec![4, 2, 9, 1]), None);
    assert_eq!(first_repeat(&vec![4]), None);
    assert_eq!(first_repeat(&Vec::new()), None);
}

#[test]
fn first_repeat_names_the_value_that_repeats_first() {
    assert_eq!(first_repeat(&vec![4, 2, 9, 2, 4]), Some(2));
    assert_eq!(first_repeat(&vec![7, 7]), Some(7));
    assert_eq!(first_repeat(&vec![1, 2, 3, 4, 1, 3, 3]), Some(1));
}

#[test]
fn repeated_input_is_found_across_bindings() {
    let bindings = vec![binding(&[1, 2], &[5, 6], FIRST), binding(&[3, 2], &[7, 8], SECOND)];
    assert_eq!(first_repeat(&input_universes(&bindings)), Some(2));
    let table = MappingTable::build(&bindings).unwrap();
    assert_eq!(table.len(), 3);
    assert_eq!(table.lookup(2), Some(Target { universe: 8, address: SECOND }));
}

#[test]
fn table_without_repeats_holds_every_input() {
    let bindings = vec![binding(&[1, 2], &[5, 6], FIRST), binding(&[3, 4], &[7, 8], SECOND)];
    assert_eq!(first_repeat(&input_universes(&bindings)), None);
    assert_eq!(MappingTable::build(&bindings).unwrap().len(), 4);
}
