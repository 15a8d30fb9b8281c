use ibsl::field::NodeDigest;
use ibsl::hashes::poseidon2::{merge, Digest, Poseidon2FlatHash, DIGEST_WIDTH, N_COLUMNS_PER_PERM, WIDTH};
use ibsl::ibsl::Ibsl;
use ibsl::m31::M31;
use ibsl::stark::stwo::{compile, log_n_rows, permutation_witness, Chain, Merge, BIT_COL, N_TRACE_COLUMNS, OUT_COL};
use ibsl::stark::trace::gen_trace;
use ibsl::vc::flat_hash::Poseidon2FlatHashVc;

/// The trace's fold must reproduce what the native flat hash computes:
/// the chain's root is the IBSL root commitment.
#[test]
fn compiled_chain_reaches_sigma() {
    let keys: Vec<u64> = (1..=30).map(|i| i * 3).collect();
    let s = Ibsl::<Poseidon2FlatHashVc>::new(&keys, 7).unwrap();
    let sigma = s.root_commitment();

    for k in [3, 45, 90] {
        let pi = s.prove(k).expect("member proof");
        assert!(Ibsl::verify(s.vc(), &sigma, k, &pi), "native proof for {k} rejected");
        assert_eq!(compile(k, &pi).root(), sigma, "chain for {k} misses sigma");
    }
}

/// The witness generator and the AIR must agree on the permutation: the
/// output columns of a row equal the native merge.
#[test]
fn witness_matches_native_merge() {
    let l = Digest::from_u128(11);
    let r = Digest::from_u128(22);
    let mut input = [M31(0); WIDTH];
    input[..DIGEST_WIDTH].copy_from_slice(&l.0);
    input[DIGEST_WIDTH..].copy_from_slice(&r.0);
    let w = permutation_witness(input);
    assert_eq!(
        Digest(w[OUT_COL..OUT_COL + DIGEST_WIDTH].try_into().unwrap()),
        merge(l, r)
    );
    assert_eq!(<Poseidon2FlatHash as ibsl::hashes::Hash>::node(&[l, r]), merge(l, r));
}

/// A chain's root folds the seed with each sibling, the sibling on the left
/// where the bit is set.
#[test]
fn chain_root_folds_in_order() {
    let seed = Digest::from_u128(42);
    let a = Digest::from_u128(100);
    let b = Digest::from_u128(101);
    let chain = Chain {
        seed,
        merges: vec![Merge { sibling: a, bit: false }, Merge { sibling: b, bit: true }],
    };
    assert_eq!(chain.root(), merge(b, merge(seed, a)));
}

#[test]
fn trace_rows_cover_the_merges() {
    assert_eq!(log_n_rows(1), 4);
    assert_eq!(log_n_rows(16), 4);
    assert_eq!(log_n_rows(17), 5);
    assert_eq!(log_n_rows(40), 6);
}

/// Each trace row is one Poseidon2 witness (300 columns) plus the bit; the
/// output columns of a row are the next accumulator, and the chain's last
/// row ends on its root.
#[test]
fn trace_rows_have_the_documented_width() {
    assert_eq!(N_COLUMNS_PER_PERM, 300);
    assert_eq!(N_TRACE_COLUMNS, 301);

    let chain = Chain {
        seed: Digest::from_u128(42),
        merges: (0..5).map(|i| Merge { sibling: Digest::from_u128(100 + i), bit: i % 2 == 1 }).collect(),
    };
    let rows = gen_trace(&chain, log_n_rows(chain.merges.len()));
    assert_eq!(rows.len(), 16);
    let mut acc = chain.seed;
    for (r, row) in rows.iter().enumerate() {
        assert_eq!(row.len(), N_TRACE_COLUMNS);
        let m = chain.merges.get(r).copied().unwrap_or(Merge { sibling: Digest::zero(), bit: false });
        assert_eq!(row[BIT_COL], M31(m.bit as u32));
        let (l, rr) = if m.bit { (m.sibling, acc) } else { (acc, m.sibling) };
        assert_eq!(&row[..8], &l.0[..]);
        assert_eq!(&row[8..16], &rr.0[..]);
        let out = Digest(row[OUT_COL..OUT_COL + DIGEST_WIDTH].try_into().unwrap());
        assert_eq!(out, merge(l, rr));
        acc = out;
        if r + 1 == chain.merges.len() {
            assert_eq!(acc, chain.root());
        }
    }
}
