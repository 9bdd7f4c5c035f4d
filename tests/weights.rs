use llama2_rs::config::{Config, ConfigError};
use llama2_rs::weights::Weights;

fn header(fields: [i32; 7]) -> Vec<u8> {
    fields.iter().flat_map(|v| v.to_le_bytes()).collect()
}

#[test]
fn config_reads_header_fields() {
    let c = Config::from_bytes(&header([288, 768, 6, 6, 6, -32000, 256])).unwrap();
    assert_eq!(c.dim(), 288);
    assert_eq!(c.hidden_dim(), 768);
    assert_eq!(c.n_layers(), 6);
    assert_eq!(c.n_heads(), 6);
    assert_eq!(c.n_kv_heads(), 6);
    assert_eq!(c.vocab_size(), 32000);
    assert!(!c.shared_weight());
    assert_eq!(c.seq_len(), 256);
    assert_eq!(c.kv_dim(), 288);
}

#[test]
fn config_shared_flag_and_grouped_heads() {
    let c = Config::new(4096, 11008, 32, 32, 8, 32000, 4096).unwrap();
    assert!(c.shared_weight());
    assert_eq!(c.vocab_size(), 32000);
    assert_eq!(c.kv_dim(), 1024);
}

#[test]
fn config_errors() {
    assert_eq!(Config::from_bytes(&[0u8; 27]), Err(ConfigError::Truncated));
    assert_eq!(Config::new(0, 8, 1, 2, 1, 6, 8), Err(ConfigError::NonPositive));
    assert_eq!(Config::new(4, 8, 1, 2, 1, 0, 8), Err(ConfigError::NonPositive));
    assert_eq!(Config::new(12, 8, 1, 3, 2, 6, 8), Err(ConfigError::HeadsNotDivisible));
    assert_eq!(Config::new(10, 8, 1, 4, 2, 6, 8), Err(ConfigError::DimNotDivisible));
    assert_eq!(Config::new(6, 8, 1, 2, 1, 6, 8), Err(ConfigError::OddHeadSize));
    assert_eq!(
        Config::new(1 << 30, 8, 1, 2, 1, 6, i32::MAX),
        Err(ConfigError::TooLarge)
    );
}

#[test]
fn weight_blob_size_is_checked() {
    let c = Config::new(4, 8, 1, 2, 1, 6, 8).unwrap();
    let err = Weights::new(c, vec![0u8; 195]).err();
    assert_eq!(err, Some(ConfigError::SizeMismatch { expected: 196, found: 195 }));
    let c = Config::new(4, 8, 1, 2, 1, -6, 8).unwrap();
    assert!(Weights::new(c, vec![0u8; 220]).is_ok());
}

#[test]
fn shared_classifier_is_the_embedding_table() {
    let c = Config::new(4, 8, 1, 2, 1, 6, 8).unwrap();
    let w = Weights::new(c, (0..196u32).collect()).unwrap();
    assert_eq!(w.wcls().as_ptr(), w.token_embeddings().as_ptr());
    assert_eq!(w.wcls(), w.token_embeddings());
    assert_eq!(w.wcls().len(), 24);
}

#[test]
fn separate_classifier_follows_frequency_tables() {
    let c = Config::new(4, 8, 1, 2, 1, -6, 8).unwrap();
    let w = Weights::new(c, (0..220u32).collect()).unwrap();
    let expected: Vec<u32> = (196..220).collect();
    assert_eq!(w.wcls(), expected.as_slice());
    assert_ne!(w.wcls().as_ptr(), w.token_embeddings().as_ptr());
}

#[test]
fn tensors_sit_in_dense_order() {
    let c = Config::new(4, 8, 2, 2, 1, 6, 8).unwrap();
    // 24 + 8 + 32 + 16 + 16 + 32 + 8 + 64 + 64 + 64 + 4 + 16
    let w = Weights::new(c, (0..348u32).collect()).unwrap();
    assert_eq!(w.token_embedding_table(5), &[20, 21, 22, 23]);
    assert_eq!(w.rms_att_weight(1), &[28, 29, 30, 31]);
    assert_eq!(w.wq(1)[0], 48);
    assert_eq!(w.wk(0)[0], 64);
    assert_eq!(w.wk(1).len(), 8);
    assert_eq!(w.wv(1)[0], 88);
    assert_eq!(w.wo(0)[0], 96);
    assert_eq!(w.rms_ffn_weight(1), &[132, 133, 134, 135]);
    assert_eq!(w.w1(1)[0], 168);
    assert_eq!(w.w2(0)[0], 200);
    assert_eq!(w.w3(1)[31], 327);
    assert_eq!(w.rms_final_weight(), &[328, 329, 330, 331]);
}

#[test]
fn kv_dim_needs_only_head_counts() {
    let c = Config { dim: 4, hidden_dim: 0, n_layers: 0, n_heads: 2, n_kv_heads: 1, vocab_size: 0, seq_len: 0 };
    assert_eq!(c.kv_dim(), 2);
    let c = Config { dim: 12, hidden_dim: 0, n_layers: 0, n_heads: 3, n_kv_heads: 3, vocab_size: 0, seq_len: 0 };
    assert_eq!(c.kv_dim(), 12);
}
