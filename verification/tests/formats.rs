//! The on-disk formats: dictionary, body column and sentence index codecs,
//! the workspace layout, and the reserved delimiters.

use vecexp::features_file::FeaturesFile;
use vecexp::index::{decode_column, encode_column};
use vecexp::indexer::Indexer;
use vecexp::sentence_index_file::SentenceIndexFile;
use vecexp::workspace::Workspace;
use vecexp::FormatError;

#[test]
fn dictionary_encode_layout() {
    let features: Vec<Vec<u8>> = vec![b"ab".to_vec(), b"".to_vec(), b"xyz".to_vec()];
    let bytes = FeaturesFile::encode(&features);
    // count (3 LE), then one length byte per entry, then the payload.
    assert_eq!(bytes, vec![3, 0, 0, 0, 2, 0, 3, b'a', b'b', b'x', b'y', b'z']);
}

#[test]
fn dictionary_round_trip() {
    let features: Vec<Vec<u8>> = vec![
        "検証".as_bytes().to_vec(),
        b"".to_vec(),
        b"EOS".to_vec(),
        vec![0, 255, 7],
    ];
    let bytes = FeaturesFile::encode(&features);
    assert_eq!(FeaturesFile::decode(&bytes), Ok(features));
}

#[test]
fn dictionary_decode_rejects_malformed_buffers() {
    assert_eq!(FeaturesFile::decode(&[1, 2]), Err(FormatError::Truncated));
    // Declares one entry but ends before its length byte.
    assert_eq!(FeaturesFile::decode(&[1, 0, 0, 0]), Err(FormatError::Truncated));
    // Declares a 2-byte entry over an empty payload.
    assert_eq!(FeaturesFile::decode(&[1, 0, 0, 0, 2]), Err(FormatError::LengthMismatch));
    // One byte of payload too many.
    assert_eq!(
        FeaturesFile::decode(&[1, 0, 0, 0, 1, b'a', b'b']),
        Err(FormatError::LengthMismatch)
    );
    // The empty dictionary is the four-byte zero count.
    assert_eq!(FeaturesFile::decode(&[0, 0, 0, 0]), Ok(vec![]));
}

#[test]
fn lookup_finds_the_first_slot() {
    let features: Vec<Vec<u8>> = vec![b"a".to_vec(), b"b".to_vec(), b"a".to_vec()];
    assert_eq!(FeaturesFile::lookup(&features, b"b"), Some(1));
    assert_eq!(FeaturesFile::lookup(&features, b"a"), Some(0));
    assert_eq!(FeaturesFile::lookup(&features, b"zzz"), None);
}

#[test]
fn body_column_round_trip() {
    let ids: Vec<u32> = vec![0, 13, 0xdead_beef, u32::MAX];
    let bytes = encode_column(&ids);
    assert_eq!(bytes.len(), 16);
    assert_eq!(bytes[0..4], [0, 0, 0, 0]);
    assert_eq!(bytes[4..8], [13, 0, 0, 0]);
    assert_eq!(decode_column(&bytes), Ok(ids));
    assert_eq!(decode_column(&[0, 0, 0]), Err(FormatError::LengthMismatch));
}

#[test]
fn sentence_index_round_trip() {
    let spans: Vec<(u32, u32)> = vec![(0, 3), (3, 7), (7, 8)];
    let bytes = SentenceIndexFile::encode(&spans);
    assert_eq!(bytes.len(), 24);
    assert_eq!(bytes[0..8], [0, 0, 0, 0, 3, 0, 0, 0]);
    assert_eq!(SentenceIndexFile::decode(&bytes), Ok(spans));
    assert_eq!(SentenceIndexFile::decode(&[0; 7]), Err(FormatError::LengthMismatch));
}

#[test]
fn workspace_paths_follow_the_layout() {
    let ws = Workspace::new(String::from("corpus"));
    assert_eq!(ws.body_path(0), "corpus/body_0.bin");
    assert_eq!(ws.body_path(9), "corpus/body_9.bin");
    assert_eq!(ws.features_path(4), "corpus/features_4.bin");
    assert_eq!(ws.sentence_index_path(), "corpus/sentence_index.bin");
    assert_eq!(ws.features_file(2).path, "corpus/features_2.bin");
    assert_eq!(ws.sentence_index_file().path, "corpus/sentence_index.bin");
}

#[test]
fn workspace_lookup_delegates_to_the_dictionary() {
    let ws = Workspace::new(String::from("corpus"));
    let features: Vec<Vec<u8>> = vec![b"".to_vec(), "。".as_bytes().to_vec()];
    assert_eq!(ws.lookup(&features, "。".as_bytes()), Some(1));
    assert_eq!(ws.lookup(&features, b"missing"), None);
}

#[test]
fn reserved_delimiters_occupy_the_first_slots() {
    let corpus = "検証,名詞\nする,動詞\n。,記号\n";
    let out = Indexer::new().execute(corpus.as_bytes()).unwrap();
    let dict0 = &out.dictionaries[0];
    let reserved = [
        "", "。", "◇", "◆", "▽", "▼", "△", "▲", "□", "■", "○", "●", "EOS",
    ];
    assert_eq!(dict0.len(), 15);
    for (i, r) in reserved.iter().enumerate() {
        assert_eq!(dict0[i], r.as_bytes());
    }
    assert_eq!(dict0[13], "検証".as_bytes());
    assert_eq!(dict0[14], "する".as_bytes());
}

#[test]
fn indexed_corpus_round_trips_through_the_files() {
    let corpus = "検証,名詞,サ変接続\nする,動詞,自立\n。,記号,句点\n";
    let out = Indexer::new().execute(corpus.as_bytes()).unwrap();
    // Body/dictionary consistency over every column.
    for c in 0..10 {
        let dict = &out.dictionaries[c];
        for &id in &out.body[c] {
            if !dict.is_empty() {
                assert!((id as usize) < dict.len());
            }
        }
    }
    // Sentence partition: one sentence closed by the 。 row.
    assert_eq!(out.sentence_index, vec![(0, 3)]);
    // lookup(decode(id)) == id through the serialized dictionary.
    let bytes = FeaturesFile::encode(&out.dictionaries[0]);
    let dict0 = FeaturesFile::decode(&bytes).unwrap();
    let id = FeaturesFile::lookup(&dict0, "検証".as_bytes()).unwrap();
    assert_eq!(id, 13);
    assert_eq!(dict0[id], "検証".as_bytes());
    // The body stores the same encoding.
    assert_eq!(out.body[0], vec![13, 14, 1]);
    assert_eq!(out.body[1], vec![0, 1, 2]);
    // Columns no row reaches store the placeholder ID 0.
    assert_eq!(out.body[5], vec![0, 0, 0]);
    assert!(out.dictionaries[5].is_empty());
}

#[test]
fn repeated_features_keep_their_first_id() {
    let corpus = "a,名詞\na,名詞\nb,動詞\na,名詞\n。,記号\n";
    let out = Indexer::new().execute(corpus.as_bytes()).unwrap();
    // "a" is inserted once and every occurrence reuses ID 13.
    assert_eq!(out.body[0], vec![13, 13, 14, 13, 1]);
    assert_eq!(out.dictionaries[0].len(), 15);
    assert_eq!(out.body[1], vec![0, 0, 1, 0, 2]);
}

#[test]
fn short_rows_and_blank_lines() {
    // Blank lines are skipped; short rows leave trailing columns at ID 0.
    let corpus = "a\n\nb,名詞\n。\n";
    let out = Indexer::new().execute(corpus.as_bytes()).unwrap();
    assert_eq!(out.body[0], vec![13, 14, 1]);
    assert_eq!(out.body[1], vec![0, 0, 0]);
    // Column 1 saw exactly one field, 名詞.
    assert_eq!(out.dictionaries[1].len(), 1);
    assert_eq!(out.sentence_index, vec![(0, 3)]);
}

#[test]
fn trailing_rows_without_delimiter_are_kept_out_of_the_index() {
    let corpus = "a,名詞\n。,記号\nb,名詞\n";
    let out = Indexer::new().execute(corpus.as_bytes()).unwrap();
    assert_eq!(out.sentence_index, vec![(0, 2)]);
    // The rows themselves are still in the body.
    assert_eq!(out.body[0].len(), 3);
}
