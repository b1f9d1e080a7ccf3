use ggufkit::merge::{
    compute_offsets, is_reserved, max_alignment, merge_meta, merge_shards, merge_tensors,
    needs_merge, pad, MetaEntry, Shard, TaggedTensor, TensorRec,
};

fn kv(key: &str, ty: u32, value: &[u8]) -> MetaEntry {
    MetaEntry { key: key.as_bytes().to_vec(), ty, value: value.to_vec() }
}

fn tensor(name: &str, n: usize, offset: usize) -> TensorRec {
    TensorRec { name: name.as_bytes().to_vec(), shape: vec![n as u64], ty: 0, offset, nbytes: n }
}

fn le64_at(out: &[u8], at: usize) -> u64 {
    let mut v: u64 = 0;
    for k in 0..8 {
        v |= (out[at + k] as u64) << (8 * k);
    }
    v
}

fn le32_at(out: &[u8], at: usize) -> u32 {
    let mut v: u32 = 0;
    for k in 0..4 {
        v |= (out[at + k] as u32) << (8 * k);
    }
    v
}

fn three_shards() -> Vec<Shard> {
    let a_data: Vec<u8> = (0..100).map(|i| (i % 7 + 200) as u8).collect();
    let b_data: Vec<u8> = (0..50).map(|i| (i % 5 + 180) as u8).collect();
    let c_data: Vec<u8> = (0..200).map(|i| (i % 11 + 140) as u8).collect();
    vec![
        Shard {
            alignment: 32,
            meta: vec![
                kv("general.name", 8, b"m"),
                kv("split.count", 4, &[3, 0, 0, 0]),
                kv("general.alignment", 4, &[32, 0, 0, 0]),
            ],
            tensors: vec![tensor("A", 100, 0)],
            data: a_data,
        },
        Shard {
            alignment: 64,
            meta: vec![
                kv("general.name", 8, b"m"),
                kv("split.count", 4, &[3, 0, 0, 0]),
                kv("general.alignment", 4, &[64, 0, 0, 0]),
            ],
            tensors: vec![tensor("B", 50, 0)],
            data: b_data,
        },
        Shard {
            alignment: 32,
            meta: vec![
                kv("general.name", 8, b"m"),
                kv("author", 8, b"x"),
                kv("general.alignment", 4, &[32, 0, 0, 0]),
            ],
            tensors: vec![tensor("C", 200, 0)],
            data: c_data,
        },
    ]
}

#[test]
fn reserved_keys_are_recognized() {
    assert!(is_reserved(&b"split.count".to_vec()));
    assert!(is_reserved(&b"split.no".to_vec()));
    assert!(is_reserved(&b"general.alignment".to_vec()));
    assert!(!is_reserved(&b"general.name".to_vec()));
    assert!(!is_reserved(&b"split".to_vec()));
    assert!(!is_reserved(&b"general.alignmen".to_vec()));
}

#[test]
fn single_shard_needs_no_merge() {
    assert!(!needs_merge(0));
    assert!(!needs_merge(1));
    assert!(needs_merge(2));
    assert!(needs_merge(3));
}

#[test]
fn metadata_dedup_drops_reserved_and_keeps_first_seen() {
    let shards = three_shards();
    let kvs = merge_meta(&shards);
    let keys: Vec<&[u8]> = kvs.iter().map(|e| e.key.as_slice()).collect();
    assert_eq!(keys, vec![b"general.name".as_slice(), b"author".as_slice()]);
    assert_eq!(kvs[0].value, b"m".to_vec());
    assert_eq!(kvs[1].value, b"x".to_vec());
}

#[test]
fn metadata_dedup_keeps_first_value_of_duplicate_key() {
    let shards = vec![
        Shard {
            alignment: 1,
            meta: vec![kv("k", 8, b"first")],
            tensors: vec![],
            data: vec![],
        },
        Shard {
            alignment: 1,
            meta: vec![kv("k", 8, b"second"), kv("l", 8, b"x")],
            tensors: vec![],
            data: vec![],
        },
    ];
    let kvs = merge_meta(&shards);
    assert_eq!(kvs.len(), 2);
    assert_eq!(kvs[0].key, b"k".to_vec());
    assert_eq!(kvs[0].value, b"first".to_vec());
    assert_eq!(kvs[1].key, b"l".to_vec());
}

#[test]
fn tensor_union_is_first_seen_by_name() {
    let shards = vec![
        Shard {
            alignment: 1,
            meta: vec![],
            tensors: vec![tensor("A", 4, 0), tensor("B", 4, 4)],
            data: vec![0; 8],
        },
        Shard {
            alignment: 1,
            meta: vec![],
            tensors: vec![tensor("B", 8, 0), tensor("C", 2, 8)],
            data: vec![0; 10],
        },
    ];
    let ts = merge_tensors(&shards);
    let names: Vec<&[u8]> = ts.iter().map(|t| t.rec.name.as_slice()).collect();
    assert_eq!(names, vec![b"A".as_slice(), b"B".as_slice(), b"C".as_slice()]);
    // the first occurrence of B wins: shard 0, four bytes
    assert_eq!(ts[1].shard, 0);
    assert_eq!(ts[1].rec.nbytes, 4);
    assert_eq!(ts[2].shard, 1);
}

#[test]
fn global_alignment_is_the_maximum() {
    let shards = three_shards();
    assert_eq!(max_alignment(&shards), 64);
}

#[test]
fn padding_to_next_multiple() {
    assert_eq!(pad(0, 64), 0);
    assert_eq!(pad(1, 64), 63);
    assert_eq!(pad(64, 64), 0);
    assert_eq!(pad(100, 64), 28);
    assert_eq!(pad(178, 64), 14);
}

#[test]
fn offsets_follow_aligned_cursor() {
    let ts = vec![
        TaggedTensor { rec: tensor("A", 100, 0), shard: 0 },
        TaggedTensor { rec: tensor("B", 50, 0), shard: 1 },
        TaggedTensor { rec: tensor("C", 200, 0), shard: 2 },
    ];
    let offs = compute_offsets(&ts, 64);
    assert_eq!(offs, vec![0, 128, 192]);
}

#[test]
fn merged_container_layout() {
    let shards = three_shards();
    let out = merge_shards(&shards);

    // magic, version, tensor count, metadata count (2 kept + alignment)
    assert_eq!(&out[0..4], b"GGUF");
    assert_eq!(le32_at(&out, 4), 3);
    assert_eq!(le64_at(&out, 8), 3);
    assert_eq!(le64_at(&out, 16), 3);

    // the alignment entry declares the maximum declared by any shard
    assert_eq!(le64_at(&out, 24), 17);
    assert_eq!(&out[32..49], b"general.alignment");
    assert_eq!(le32_at(&out, 49), 4);
    assert_eq!(le32_at(&out, 53), 64);

    // header region: 24 + 33 + (25 + 19) + 3 * 33 = 200
    // the two kept entries
    assert_eq!(le64_at(&out, 57), 12);
    assert_eq!(&out[65..77], b"general.name");
    assert_eq!(le64_at(&out, 82), 6);
    assert_eq!(&out[90..96], b"author");

    // tensor info records with recomputed offsets 0, 128, 192
    assert_eq!(le64_at(&out, 101), 1);
    assert_eq!(&out[109..110], b"A");
    assert_eq!(le32_at(&out, 110), 1);
    assert_eq!(le64_at(&out, 114), 100);
    assert_eq!(le64_at(&out, 126), 0);
    assert_eq!(&out[142..143], b"B");
    assert_eq!(le64_at(&out, 159), 128);
    assert_eq!(&out[175..176], b"C");
    assert_eq!(le64_at(&out, 192), 192);

    // the data segment starts at 200 aligned up to 256
    let ds = 256;
    assert_eq!(out.len(), ds + 192 + 200);
    assert_eq!(&out[ds..ds + 100], shards[0].data.as_slice());
    assert_eq!(&out[ds + 128..ds + 178], shards[1].data.as_slice());
    assert_eq!(&out[ds + 192..ds + 392], shards[2].data.as_slice());

    // every padding byte is zero
    for i in 200..ds {
        assert_eq!(out[i], 0);
    }
    for i in ds + 100..ds + 128 {
        assert_eq!(out[i], 0);
    }
    for i in ds + 178..ds + 192 {
        assert_eq!(out[i], 0);
    }

    // offsets are multiples of the global alignment, and no reserved
    // key survives in the header region
    for &off in &[0usize, 128, 192] {
        assert_eq!(off % 64, 0);
    }
    let header = &out[57..200];
    let needle = b"split.";
    let found = header.windows(needle.len()).any(|w| w == needle);
    assert!(!found);
}

#[test]
fn merge_is_deterministic() {
    let a = merge_shards(&three_shards());
    let b = merge_shards(&three_shards());
    assert_eq!(a, b);
}
