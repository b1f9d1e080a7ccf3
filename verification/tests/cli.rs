use ggufkit::cli::{parse_step, ConvertArgs, MergeArgs, Operator};

#[test]
fn fixed_step_names() {
    assert!(matches!(parse_step(&b"sort".to_vec()), Some(Operator::SortTensors)));
    assert!(matches!(parse_step(&b"permute-qk".to_vec()), Some(Operator::PermuteQK)));
    assert!(matches!(parse_step(&b"merge-linear".to_vec()), Some(Operator::MergeLinear(true))));
    assert!(matches!(parse_step(&b"split-linear".to_vec()), Some(Operator::MergeLinear(false))));
    assert!(matches!(parse_step(&b"!merge-linear".to_vec()), Some(Operator::MergeLinear(false))));
}

#[test]
fn to_llama_without_extra() {
    match parse_step(&b"to-llama".to_vec()) {
        Some(Operator::ToLlama(extra)) => assert!(extra.is_empty()),
        other => panic!("unexpected parse: {:?}", other.is_some()),
    }
}

#[test]
fn argument_step_names() {
    match parse_step(&b"cast:f16".to_vec()) {
        Some(Operator::Cast(t)) => assert_eq!(t, b"f16".to_vec()),
        _ => panic!("cast step not recognized"),
    }
    match parse_step(&b"to-llama:extra".to_vec()) {
        Some(Operator::ToLlama(t)) => assert_eq!(t, b"extra".to_vec()),
        _ => panic!("to-llama step not recognized"),
    }
    match parse_step(&b"filter-meta:general.name".to_vec()) {
        Some(Operator::FilterMetaKey(t)) => assert_eq!(t, b"general.name".to_vec()),
        _ => panic!("filter-meta step not recognized"),
    }
    match parse_step(&b"filter-tensor:blk.0.attn_q.weight".to_vec()) {
        Some(Operator::FilterTensorName(t)) => assert_eq!(t, b"blk.0.attn_q.weight".to_vec()),
        _ => panic!("filter-tensor step not recognized"),
    }
}

#[test]
fn unsupported_steps_are_rejected() {
    assert!(parse_step(&b"frobnicate".to_vec()).is_none());
    assert!(parse_step(&b"".to_vec()).is_none());
    assert!(parse_step(&b"unknown:arg".to_vec()).is_none());
    // the colon split happens at the first colon only
    match parse_step(&b"cast:a:b".to_vec()) {
        Some(Operator::Cast(t)) => assert_eq!(t, b"a:b".to_vec()),
        _ => panic!("cast step not recognized"),
    }
}

#[test]
fn argument_structs_carry_plain_values() {
    let c = ConvertArgs {
        file: b"model.gguf".to_vec(),
        steps: b"sort->cast:f16".to_vec(),
        output_dir: None,
    };
    assert_eq!(c.file, b"model.gguf".to_vec());
    let m = MergeArgs { file: b"model-00001-of-00003.gguf".to_vec(), output_dir: Some(b"out".to_vec()) };
    assert_eq!(m.output_dir, Some(b"out".to_vec()));
}
