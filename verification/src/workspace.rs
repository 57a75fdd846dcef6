//! A workspace: the directory holding one corpus's index files.
//!
//! The layout is fixed: `body_<c>.bin` and `features_<c>.bin` for each
//! column `c`, and one `sentence_index.bin`.  The workspace computes those
//! paths and answers feature lookups over loaded dictionaries; reading and
//! writing the files themselves is the caller's business.

use vstd::prelude::*;
use vstd::string::StringExecFns;
use crate::COLS;
use crate::features_file::{FeaturesFile, spec_is_first_match};
use crate::sentence_index_file::SentenceIndexFile;

verus! {

/// Names one workspace directory.
pub struct Workspace {
    pub path: String,
}

pub open spec fn spec_digit_char(c: int) -> char {
    if c == 0 {
        '0'
    } else if c == 1 {
        '1'
    } else if c == 2 {
        '2'
    } else if c == 3 {
        '3'
    } else if c == 4 {
        '4'
    } else if c == 5 {
        '5'
    } else if c == 6 {
        '6'
    } else if c == 7 {
        '7'
    } else if c == 8 {
        '8'
    } else {
        '9'
    }
}

/// `<workspace>/body_<c>.bin`.
pub open spec fn spec_body_path(path: Seq<char>, c: int) -> Seq<char> {
    path + seq!['/', 'b', 'o', 'd', 'y', '_', spec_digit_char(c), '.', 'b', 'i', 'n']
}

/// `<workspace>/features_<c>.bin`.
pub open spec fn spec_features_path(path: Seq<char>, c: int) -> Seq<char> {
    path + seq!['/', 'f', 'e', 'a', 't', 'u', 'r', 'e', 's', '_', spec_digit_char(c), '.', 'b', 'i', 'n']
}

/// `<workspace>/sentence_index.bin`.
pub open spec fn spec_sentence_index_path(path: Seq<char>) -> Seq<char> {
    path + seq![
        '/', 's', 'e', 'n', 't', 'e', 'n', 'c', 'e', '_', 'i', 'n', 'd', 'e', 'x', '.', 'b', 'i',
        'n',
    ]
}

/// The decimal label of a column number.
fn digit_label(column: usize) -> (r: &'static str)
    requires
        column < 10,
    ensures
        r@ == seq![spec_digit_char(column as int)],
{
    let r: &'static str = if column == 0 {
        "0"
    } else if column == 1 {
        "1"
    } else if column == 2 {
        "2"
    } else if column == 3 {
        "3"
    } else if column == 4 {
        "4"
    } else if column == 5 {
        "5"
    } else if column == 6 {
        "6"
    } else if column == 7 {
        "7"
    } else if column == 8 {
        "8"
    } else {
        "9"
    };
    proof {
        reveal_strlit("0");
        reveal_strlit("1");
        reveal_strlit("2");
        reveal_strlit("3");
        reveal_strlit("4");
        reveal_strlit("5");
        reveal_strlit("6");
        reveal_strlit("7");
        reveal_strlit("8");
        reveal_strlit("9");
        assert(r@ =~= seq![spec_digit_char(column as int)]);
    }
    r
}

impl Workspace {
    pub fn new(path: String) -> (w: Workspace)
        ensures
            w.path@ == path@,
    {
        Workspace { path }
    }

    /// Path of column `column`'s body file.
    pub fn body_path(&self, column: usize) -> (r: String)
        requires
            column < COLS,
        ensures
            r@ == spec_body_path(self.path@, column as int),
    {
        let mut s = self.path.clone();
        s.append("/body_");
        s.append(digit_label(column));
        s.append(".bin");
        proof {
            reveal_strlit("/body_");
            reveal_strlit(".bin");
            assert(s@ =~= spec_body_path(self.path@, column as int));
        }
        s
    }

    /// Path of column `column`'s dictionary file.
    pub fn features_path(&self, column: usize) -> (r: String)
        requires
            column < COLS,
        ensures
            r@ == spec_features_path(self.path@, column as int),
    {
        let mut s = self.path.clone();
        s.append("/features_");
        s.append(digit_label(column));
        s.append(".bin");
        proof {
            reveal_strlit("/features_");
            reveal_strlit(".bin");
            assert(s@ =~= spec_features_path(self.path@, column as int));
        }
        s
    }

    /// Path of the sentence index file.
    pub fn sentence_index_path(&self) -> (r: String)
        ensures
            r@ == spec_sentence_index_path(self.path@),
    {
        let mut s = self.path.clone();
        s.append("/sentence_index.bin");
        proof {
            reveal_strlit("/sentence_index.bin");
            assert(s@ =~= spec_sentence_index_path(self.path@));
        }
        s
    }

    /// The dictionary file of column `column`.
    pub fn features_file(&self, column: usize) -> (r: FeaturesFile)
        requires
            column < COLS,
        ensures
            r.path@ == spec_features_path(self.path@, column as int),
    {
        FeaturesFile::new(self.features_path(column))
    }

    /// The sentence index file.
    pub fn sentence_index_file(&self) -> (r: SentenceIndexFile)
        ensures
            r.path@ == spec_sentence_index_path(self.path@),
    {
        SentenceIndexFile::new(self.sentence_index_path())
    }

    /// Finds the feature ID of a feature string in a loaded dictionary: the
    /// first slot holding it, if any.
    pub fn lookup(&self, features: &Vec<Vec<u8>>, pat: &[u8]) -> (r: Option<usize>)
        ensures
            match r {
                Some(i) => spec_is_first_match(features.deep_view(), pat@, i as int),
                None => forall|j: int|
                    0 <= j < features.deep_view().len() ==> features.deep_view()[j] != pat@,
            },
    {
        FeaturesFile::lookup(features, pat)
    }
}

} // verus!
