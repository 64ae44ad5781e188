use exl3::ngram::lookup::Row;
use exl3::ngram::table::{NGramEmbedding, NGramError, Store, ROW_DIM};
use exl3::ngram::trellis::{mul1_codebook, unpack_rows, words_per_row};
use exl3::tensors::TensorInfo;

/// The bits of a small whole number in half precision.
fn half(n: i64) -> u16 {
    if n == 0 {
        return 0;
    }
    let e = 63 - n.leading_zeros() as i64;
    let mant = if e <= 10 { (n << (10 - e)) & 0x3ff } else { (n >> (e - 10)) & 0x3ff };
    (((e + 15) << 10) | mant) as u16
}

/// What half-precision bits stand for.
fn value(b: u16) -> f64 {
    let sign = if b >> 15 == 1 { -1.0 } else { 1.0 };
    let exp = ((b >> 10) & 0x1f) as i32;
    let mant = (b & 0x3ff) as f64 / 1024.0;
    if exp == 0 {
        return sign * mant * 2f64.powi(-14);
    }
    sign * (1.0 + mant) * 2f64.powi(exp - 15)
}

/// A table whose row `r` is `[r, r, ...]`.
fn synth(ngram_size: i64, heads_per_ngram: i64, vocab: i64, eos: i64) -> NGramEmbedding {
    let num_heads = (ngram_size - 1) * heads_per_ngram;
    let num_rows = num_heads * vocab;
    NGramEmbedding {
        store: Store::Fp16 { shards: vec![(0..num_rows).map(|r| vec![half(r); ROW_DIM as usize]).collect()] },
        head_offsets: (0..num_heads).map(|h| h * vocab).collect(),
        head_vocab_sizes: vec![vocab; num_heads as usize],
        layer_multipliers: (0..ngram_size).map(|i| 0x9E37_79B1i64 + i * 0x0100_0193).collect(),
        rows_per_shard: num_rows,
        num_rows,
        ngram_size,
        heads_per_ngram,
        num_heads,
        ple_embed_dim: num_heads * ROW_DIM,
        eos_token_id: eos,
    }
}

#[test]
fn ids_stay_inside_their_head_partition() {
    let m = synth(4, 2, 97, 0);
    let ids = m.compute_ngram_ids(&vec![vec![5i64, 9, 2, 7, 4, 11, 3, 8]], 5);
    assert_eq!((ids.len(), ids[0].len(), ids[0][0].len()), (1, 5, 6));
    for h in 0..m.num_heads as usize {
        let lo = h as i64 * 97;
        for t in 0..5 {
            assert!(ids[0][t][h] >= lo);
            assert!(ids[0][t][h] < lo + 97);
        }
    }
}

#[test]
fn hashing_does_not_span_an_eos() {
    let m = synth(3, 2, 61, 0);
    // The same segment, other tokens before the end.
    let a = vec![vec![7i64, 3, 0, 12, 5, 9]];
    let b = vec![vec![41i64, 19, 0, 12, 5, 9]];
    let ia = m.compute_ngram_ids(&a, 3);
    let ib = m.compute_ngram_ids(&b, 3);
    assert_eq!(ia, ib);
    // The end itself still looks back.
    assert_ne!(m.compute_ngram_ids(&a, 4)[0][0], m.compute_ngram_ids(&b, 4)[0][0]);
}

#[test]
fn ids_are_position_local() {
    let m = synth(4, 1, 53, 0);
    let toks = vec![2i64, 8, 5, 1, 9, 4, 6, 3];
    let whole = m.compute_ngram_ids(&vec![toks.clone()], 5); // positions 3..8
    let tail = m.compute_ngram_ids(&vec![toks[4..].to_vec()], 1); // position 7 alone
    assert_eq!(whole[0][4], tail[0][0]);
}

#[test]
fn embedding_concatenates_rows_in_head_order() {
    let m = synth(3, 2, 31, 0);
    let toks = vec![vec![1i64, 6, 4, 9, 2]];
    let ids = m.compute_ngram_ids(&toks, 3);
    let emb = m.embed_ids(&ids);
    assert_eq!(emb.picks.len(), 1);
    assert_eq!(emb.picks[0].len(), 3);
    for s in 0..3 {
        assert_eq!(emb.picks[0][s].len() as i64 * ROW_DIM, m.num_heads * ROW_DIM);
        for h in 0..m.num_heads as usize {
            let want = ids[0][s][h] as f64;
            let got = match &emb.rows[emb.picks[0][s][h]] {
                Row::Plain { words } => {
                    assert_eq!(words.len() as i64, ROW_DIM);
                    words.iter().map(|&w| value(w)).sum::<f64>() / words.len() as f64
                }
                Row::Packed { .. } => unreachable!(),
            };
            assert!((got - want).abs() < 1e-3, "head {h} pos {s}: {got} != {want}");
        }
    }
}

fn words(m: &NGramEmbedding, ids: &Vec<Vec<Vec<i64>>>) -> Vec<Vec<u16>> {
    let e = m.embed_ids(ids);
    let mut out = vec![];
    for seq in &e.picks {
        for pos in seq {
            for &p in pos {
                match &e.rows[p] {
                    Row::Plain { words } => out.push(words.clone()),
                    Row::Packed { .. } => unreachable!(),
                }
            }
        }
    }
    out
}

#[test]
fn sharded_lookup_matches_the_whole_table() {
    let mut m = synth(3, 2, 40, 0);
    let toks = vec![vec![3i64, 7, 1, 8, 2, 5]];
    let ids = m.compute_ngram_ids(&toks, 4);
    let want = words(&m, &ids);

    let whole = match &m.store {
        Store::Fp16 { shards } => shards[0].clone(),
        Store::Trellis { .. } => unreachable!(),
    };
    let half = m.num_rows / 2;
    m.store = Store::Fp16 { shards: vec![whole[..half as usize].to_vec(), whole[half as usize..].to_vec()] };
    m.rows_per_shard = half;
    assert_eq!(words(&m, &ids), want);
}

/// The low `k` bits of each state, written into the ring.
fn pack(states: &[u16], k: i64) -> Vec<u16> {
    let mut words = vec![0u16; words_per_row(k) as usize];
    for (i, s) in states.iter().enumerate() {
        for b in 0..k as usize {
            let j = i * k as usize + b;
            words[1 + j / 16] |= ((s >> b) & 1) << (j % 16);
        }
    }
    words
}

#[test]
fn trellis_unpack_inverts_the_ring() {
    for k in [2i64, 3, 4] {
        let n = 3;
        let mut x = 12345u32;
        let rows: Vec<Vec<u16>> = (0..n)
            .map(|_| {
                (0..ROW_DIM)
                    .map(|_| {
                        x = x.wrapping_mul(1664525).wrapping_add(1013904223);
                        (x >> 16) as u16
                    })
                    .collect()
            })
            .collect();
        let packed: Vec<Vec<u16>> = rows.iter().map(|r| pack(r, k)).collect();
        let (got, scales) = unpack_rows(&packed, k);
        assert_eq!(scales, vec![0, 0, 0]);
        let low = (1u16 << k) - 1;
        for (g, w) in got.iter().zip(&rows) {
            for (a, b) in g.iter().zip(w) {
                assert_eq!(a & low, b & low, "K={k}");
            }
        }
    }
}

#[test]
fn states_that_bite_their_tail_come_back_whole() {
    let k = 4i64;
    // The low bits of value i; each state is made of its own and those of the three before.
    let low: Vec<u16> = (0..160u16).map(|i| (i * 7 + 3) & 15).collect();
    let states: Vec<u16> = (0..160usize)
        .map(|i| (0..4usize).map(|b| low[(i + 160 - b) % 160] << (4 * b)).sum())
        .collect();
    let mut row = pack(&states, k);
    row[0] = 0x3c00;
    let (got, scales) = unpack_rows(&vec![row], k);
    assert_eq!(got, vec![states]);
    assert_eq!(scales, vec![0x3c00]);
}

#[test]
fn mul1_codebook_spans_zero() {
    let sums = mul1_codebook();
    assert_eq!(sums.len(), 65536);
    let cb: Vec<f64> = sums.iter().map(|&h| h as f64 * value(0x1eee) + value(0xc931)).collect();
    let min = cb.iter().cloned().fold(f64::MAX, f64::min);
    let max = cb.iter().cloned().fold(f64::MIN, f64::max);
    assert!(min < 0.0);
    assert!(max > 0.0);
    assert!(min.abs().max(max.abs()) < 32.0);
}

#[test]
fn codebook_sums_the_bytes_of_the_product() {
    let sums = mul1_codebook();
    assert_eq!(sums[0], 1024);
    assert_eq!(sums[1], 1024 + 0x83 + 0xDC + 0xD1 + 0x2D);
    assert_eq!(sums[65535], {
        let p = (65535u64 * 0x83DC_D12D) & 0xffff_ffff;
        (1024 + (p & 255) + ((p >> 8) & 255) + ((p >> 16) & 255) + (p >> 24)) as u32
    });
}

#[test]
fn packed_rows_have_a_scale_word() {
    assert_eq!(words_per_row(2), 21);
    assert_eq!(words_per_row(3), 31);
    assert_eq!(words_per_row(4), 41);
}

#[test]
fn shifts_stop_at_an_end() {
    let m = synth(3, 1, 10, 0);
    assert_eq!(m.shift_right_ignore_eos(&vec![4, 5, 0, 6, 7, 8], 0), vec![4, 5, 0, 6, 7, 8]);
    assert_eq!(m.shift_right_ignore_eos(&vec![4, 5, 0, 6, 7, 8], 1), vec![0, 4, 5, 0, 6, 7]);
    assert_eq!(m.shift_right_ignore_eos(&vec![4, 5, 0, 6, 7, 8], 2), vec![0, 0, 4, 0, 0, 6]);
    assert_eq!(m.context_len(), 2);
}

#[test]
fn packed_tables_give_sums_scale_and_head() {
    let k = 2i64;
    let mut rows = vec![];
    for r in 0..4u16 {
        let mut row = pack(&vec![r; 160], k);
        row[0] = 100 + r;
        rows.push(row);
    }
    let m = NGramEmbedding {
        store: Store::Trellis { shards: vec![rows[..2].to_vec(), rows[2..].to_vec()], k },
        head_offsets: vec![0, 3],
        head_vocab_sizes: vec![3, 1],
        layer_multipliers: vec![1, 1, 1],
        rows_per_shard: 2,
        num_rows: 4,
        ngram_size: 3,
        heads_per_ngram: 1,
        num_heads: 2,
        ple_embed_dim: 320,
        eos_token_id: 0,
    };
    assert_eq!(m.num_rows(), 4);
    let got = m.fetch_rows(&vec![0, 2, 3]);
    let mut seen = vec![];
    for r in &got {
        match r {
            Row::Packed { sums, scale, head } => {
                assert_eq!(sums.len(), 160);
                seen.push((*scale, *head));
            }
            Row::Plain { .. } => unreachable!(),
        }
    }
    assert_eq!(seen, vec![(100, 0), (102, 0), (103, 1)]);
    match &got[0] {
        Row::Packed { sums, .. } => assert!(sums.iter().all(|&s| s == 1024)),
        Row::Plain { .. } => unreachable!(),
    }
}

#[test]
fn forward_embeds_all_but_the_context() {
    let m = synth(3, 2, 31, 0);
    let toks = vec![vec![1i64, 6, 4, 9, 2]];
    let e = m.forward(&toks);
    assert_eq!(e.picks[0].len(), 3);
    let ids = m.compute_ngram_ids(&toks, 3);
    // every row is fetched once
    let mut distinct: Vec<i64> = ids[0].iter().flatten().copied().collect();
    distinct.sort();
    distinct.dedup();
    assert_eq!(e.rows.len(), distinct.len());
}

fn info(name: &str, rows: i64, cols: i64) -> TensorInfo {
    TensorInfo { name: name.to_string(), rows, cols, depth: 1 }
}

fn aux(key: &str, heads: i64) -> Vec<TensorInfo> {
    vec![
        info(&format!("{key}.head_offsets"), heads, 1),
        info(&format!("{key}.head_vocab_sizes"), heads, 1),
        info(&format!("{key}.layer_multipliers"), 3, 1),
    ]
}

#[test]
fn plans_find_every_layout() {
    // packed shards come first
    let mut t = vec![info("m.e.shard_0.trellis", 5, 21), info("m.e.shard_1.trellis", 3, 21), info("m.e.weight", 8, 160)];
    t.extend(aux("m.e", 4));
    t.push(info("m.e.head_bias", 4, 160));
    let p = NGramEmbedding::plan(&t, "m.e", 3, 2, 640).ok().unwrap();
    assert_eq!(p.keys, vec!["m.e.shard_0.trellis", "m.e.shard_1.trellis"]);
    assert_eq!((p.trellis, p.rows_per_shard, p.num_rows, p.num_heads), (Some(2), 5, 8, 4));
    assert_eq!(p.offsets_key, "m.e.head_offsets");
    assert_eq!(p.bias_key.as_deref(), Some("m.e.head_bias"));
    // plain rows have their numbers beside the table
    let t = vec![
        info("m.e.weight", 8, 160),
        info("m.ngram_heads_offsets", 4, 1),
        info("m.ngram_heads_vocab_sizes", 4, 1),
        info("m.layer_multipliers", 3, 1),
    ];
    let p = NGramEmbedding::plan(&t, "m.e", 3, 2, 640).ok().unwrap();
    assert_eq!(p.keys, vec!["m.e.weight"]);
    assert_eq!((p.trellis, p.num_rows), (None, 8));
    assert_eq!(p.sizes_key, "m.ngram_heads_vocab_sizes");
    assert!(p.bias_key.is_none());
}

#[test]
fn plans_name_what_is_wrong() {
    let err = |t: &Vec<TensorInfo>, dim: i64| NGramEmbedding::plan(t, "m.e", 3, 2, dim).err().unwrap();
    let t: Vec<TensorInfo> = vec![];
    assert!(matches!(err(&t, 641), NGramError::NoTensors));
    assert!(matches!(err(&t, 100), NGramError::HeadDim { head_dim: 25 }));
    let t = vec![info("m.e.shard_0.weight", 3, 160), info("m.e.shard_1.weight", 4, 160)];
    assert!(matches!(err(&t, 640), NGramError::ShardRows));
    let t = vec![info("m.e.weight", 3, 160)];
    match err(&t, 640) {
        NGramError::Missing { name } => assert_eq!(name, "m.ngram_heads_offsets"),
        _ => panic!("another error"),
    }
    let full = |cols: i64, heads: i64| {
        vec![
            info("m.e.weight", 3, cols),
            info("m.ngram_heads_offsets", heads, 1),
            info("m.ngram_heads_vocab_sizes", heads, 1),
            info("m.layer_multipliers", 3, 1),
        ]
    };
    assert!(matches!(err(&full(160, 5), 640), NGramError::HashHeads { found: 5, implied: 4 }));
    assert!(matches!(err(&full(161, 4), 640), NGramError::TableRow));
    let mut t = vec![info("m.e.trellis", 3, 22)];
    t.extend(aux("m.e", 4));
    assert!(matches!(err(&t, 640), NGramError::TrellisRow { words: 22 }));
    let mut t = vec![info("m.e.trellis", 3, 21)];
    t.extend(aux("m.e", 4));
    match err(&t, 640) {
        NGramError::Missing { name } => assert_eq!(name, "m.e.head_bias"),
        _ => panic!("another error"),
    }
}
