use subset_sequences::format::_sequence_to_string;
use subset_sequences::format::format_sequence;
use subset_sequences::format::format_sequences;
use subset_sequences::format::symbol_index;
use subset_sequences::format::u16_to_decimal;
use subset_sequences::search::max_sequence_length;
use subset_sequences::search::run;

/// Symbol indices are the discrete base-two logarithms of the stored values.
#[test]
fn index_is_discrete_log() {
    assert_eq!(symbol_index(1), 0);
    assert_eq!(symbol_index(2), 1);
    assert_eq!(symbol_index(8), 3);
    assert_eq!(symbol_index(16384), 14);
}

/// Decimal rendering of small and large values.
#[test]
fn decimal_rendering() {
    assert_eq!(u16_to_decimal(0), "0");
    assert_eq!(u16_to_decimal(7), "7");
    assert_eq!(u16_to_decimal(10), "10");
    assert_eq!(u16_to_decimal(16384), "16384");
}

/// A sequence is rendered as comma-joined symbol indices.
#[test]
fn sequence_rendering_uses_indices() {
    assert_eq!(format_sequence(&vec![1, 2, 4]), "0,1,2");
    assert_eq!(format_sequence(&vec![4, 1, 16]), "2,0,4");
    assert_eq!(format_sequence(&vec![8]), "3");
    assert_eq!(format_sequence(&vec![]), "");
}

/// Rendering a report renders each sequence on its own line.
#[test]
fn report_rendering() {
    let sequences = vec![vec![1, 2, 4], vec![2, 4, 8, 2]];
    let lines = format_sequences(&sequences);
    assert_eq!(lines, vec!["0,1,2".to_string(), "1,2,3,1".to_string()]);
}

/// The raw rendering shows stored values, not indices.
#[test]
fn raw_rendering_shows_values() {
    assert_eq!(_sequence_to_string(&vec![1, 2, 4]), "1,2,4");
    assert_eq!(_sequence_to_string(&vec![16384, 3]), "16384,3");
}

/// The completion length is the binomial count plus the warm-up prefix.
#[test]
fn completion_lengths() {
    assert_eq!(max_sequence_length(5, 2), 11);
    assert_eq!(max_sequence_length(4, 1), 4);
    assert_eq!(max_sequence_length(4, 3), 6);
    assert_eq!(max_sequence_length(15, 14), 28);
    assert_eq!(max_sequence_length(6, 3), 22);
}

/// A finished search renders to indices of the configured alphabet only.
#[test]
fn finished_sequences_render_to_alphabet_indices() {
    let (sequences, _, _) = run(5, 2, false).expect("the configuration is valid");
    let lines = format_sequences(&sequences);
    assert_eq!(lines.len(), sequences.len());
    for line in &lines {
        for part in line.split(',') {
            let index: u16 = part.parse().expect("every part is a decimal index");
            assert!(index < 5);
        }
    }
}
