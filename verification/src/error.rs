//! What can go wrong.

use vstd::prelude::*;

verus! {

/// Why a request was refused.
#[derive(Debug, PartialEq, Eq)]
pub enum Error {
    /// A count does not fit in 32 bits.
    CountOutOfRange,
    /// A cluster count of zero.
    ZeroClusterCount,
    /// An embedding dimension of zero.
    ZeroDimension,
    /// An embedding column name without a visible character.
    EmptyColumnName,
    /// Embedding data that does not divide into rows.
    RaggedEmbeddings,
    /// An index over no vectors.
    NoVectors,
    /// More clusters than vectors.
    TooManyClusters,
    /// A serialized index without a header.
    BufferTooSmall,
    /// A result count of zero.
    ZeroK,
    /// A probe count of zero.
    ZeroNprobe,
    /// A search without a result count.
    KNotSet,
    /// A search without a probe count.
    NprobeNotSet,
    /// A query whose length is not the dimension of the index.
    QueryDimension { expected: usize, got: usize },
    /// A file without the embedding column.
    ColumnNotFound { column: String },
    /// A row without an embedding.
    NullRows,
    /// An embedding with a missing value.
    NullValues,
    /// Selected embeddings whose length is not that of the selected rows.
    SelectionMismatch,
}

/// The decimal digit of `d`.
pub open spec fn digit(d: usize) -> Seq<char> {
    match d {
        0 => "0"@,
        1 => "1"@,
        2 => "2"@,
        3 => "3"@,
        4 => "4"@,
        5 => "5"@,
        6 => "6"@,
        7 => "7"@,
        8 => "8"@,
        _ => "9"@,
    }
}

/// `n` in decimal.
pub open spec fn decimal(n: usize) -> Seq<char>
    decreases n,
{
    if n < 10 {
        digit(n)
    } else {
        decimal(n / 10) + digit(n % 10)
    }
}

/// A number is written as the number of its tens followed by the digit of its
/// ones, and a number below ten as its digit alone.
pub proof fn law_decimals_are_written_digit_by_digit(tens: usize, ones: usize)
    requires
        ones < 10,
        10 * tens + ones <= usize::MAX,
    ensures
        decimal(ones).len() == 1,
        decimal(ones)[0] as int == 48 + ones,
        tens > 0 ==> decimal((10 * tens + ones) as usize) == decimal(tens) + decimal(ones),
{
    reveal_strlit("0");
    reveal_strlit("1");
    reveal_strlit("2");
    reveal_strlit("3");
    reveal_strlit("4");
    reveal_strlit("5");
    reveal_strlit("6");
    reveal_strlit("7");
    reveal_strlit("8");
    reveal_strlit("9");
    let n = (10 * tens + ones) as usize;
    assert(n / 10 == tens && n % 10 == ones);
}

fn digit_of(d: usize) -> (r: &'static str)
    requires
        d < 10,
    ensures
        r@ == digit(d),
{
    match d {
        0 => "0",
        1 => "1",
        2 => "2",
        3 => "3",
        4 => "4",
        5 => "5",
        6 => "6",
        7 => "7",
        8 => "8",
        _ => "9",
    }
}

/// `n` in decimal.
pub fn decimal_of(n: usize) -> (r: String)
    ensures
        r@ == decimal(n),
    decreases n,
{
    if n < 10 {
        digit_of(n).to_owned()
    } else {
        decimal_of(n / 10).concat(digit_of(n % 10))
    }
}

impl Error {
    /// What the error says.
    pub open spec fn text(self) -> Seq<char> {
        match self {
            Error::CountOutOfRange => "out of range integral type conversion attempted"@,
            Error::ZeroClusterCount => "Cluster count must be > 0"@,
            Error::ZeroDimension => "Embedding dimension must be > 0"@,
            Error::EmptyColumnName => "Embedding column name cannot be empty"@,
            Error::RaggedEmbeddings => "Embedding data length must be a multiple of dimension"@,
            Error::NoVectors => "Cannot build IVF index with zero vectors"@,
            Error::TooManyClusters => "n_clusters cannot exceed number of vectors"@,
            Error::BufferTooSmall => "IVF index buffer too small"@,
            Error::ZeroK => "k must be > 0"@,
            Error::ZeroNprobe => "nprobe must be > 0"@,
            Error::KNotSet => "k must be set"@,
            Error::NprobeNotSet => "nprobe must be set"@,
            Error::NullRows => "Embedding column contains null rows"@,
            Error::NullValues => "Embedding values contain nulls"@,
            Error::SelectionMismatch => "Selected embeddings do not match expected dimensions"@,
            Error::QueryDimension { expected, got } => "Query dimension mismatch: expected "@ + decimal(
                expected,
            ) + ", got "@ + decimal(got),
            Error::ColumnNotFound { column } => "Column '"@ + column@ + "' not found"@,
        }
    }

    /// What the error says.
    pub fn message(&self) -> (r: String)
        ensures
            r@ == self.text(),
    {
        match self {
            Error::CountOutOfRange => "out of range integral type conversion attempted".to_owned(),
            Error::ZeroClusterCount => "Cluster count must be > 0".to_owned(),
            Error::ZeroDimension => "Embedding dimension must be > 0".to_owned(),
            Error::EmptyColumnName => "Embedding column name cannot be empty".to_owned(),
            Error::RaggedEmbeddings => "Embedding data length must be a multiple of dimension".to_owned(),
            Error::NoVectors => "Cannot build IVF index with zero vectors".to_owned(),
            Error::TooManyClusters => "n_clusters cannot exceed number of vectors".to_owned(),
            Error::BufferTooSmall => "IVF index buffer too small".to_owned(),
            Error::ZeroK => "k must be > 0".to_owned(),
            Error::ZeroNprobe => "nprobe must be > 0".to_owned(),
            Error::KNotSet => "k must be set".to_owned(),
            Error::NprobeNotSet => "nprobe must be set".to_owned(),
            Error::NullRows => "Embedding column contains null rows".to_owned(),
            Error::NullValues => "Embedding values contain nulls".to_owned(),
            Error::SelectionMismatch => "Selected embeddings do not match expected dimensions".to_owned(),
            Error::QueryDimension { expected, got } => "Query dimension mismatch: expected ".to_owned().concat(
                decimal_of(*expected).as_str(),
            ).concat(", got ").concat(decimal_of(*got).as_str()),
            Error::ColumnNotFound { column } => "Column '".to_owned().concat(column.as_str()).concat("' not found"),
        }
    }
}

} // verus!
