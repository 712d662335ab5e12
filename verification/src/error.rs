//! Error types for fallible affinity constructors.

use vstd::prelude::*;

verus! {

/// Errors from [`Affinities::from_csr`](crate::Affinities::from_csr).
#[derive(Debug, Clone, PartialEq)]
pub enum FromCsrError {
    WrongRowsLen { expected: usize, actual: usize },
    NonMonotoneRows { at: usize, prev: usize, next: usize },
    RowsEndMismatch { rows_end: usize, columns_len: usize },
    ColumnOutOfRange { row: usize, entry: usize, column: u32, n_samples: usize },
    ValueNotFinite { row: usize, entry: usize },
    ValueNegative { row: usize, entry: usize },
    Asymmetric { row: usize, col: usize },
    ZeroTotalMass,
}

/// Errors from [`AffinitiesBuilder`](crate::AffinitiesBuilder) methods.
#[derive(Debug, Clone, PartialEq)]
pub enum AffinitiesBuilderError {
    NonPositiveWeight,
    SampleCountMismatch { view: usize, builder: usize },
    SubsetSizeMismatch { view: usize, subset: usize },
    SubsetIdOutOfRange { id: usize, n_samples: usize },
    DuplicateSubsetId { id: usize },
    NonPositiveTau,
    NoViews,
}

/// Errors from the PCA-reduced metric constructors.
#[derive(Debug, Clone, PartialEq)]
pub enum PcaError {
    NoRows,
    ZeroTargetDim,
    RaggedRows { row: usize, expected: usize, actual: usize },
    PerplexityTooLarge { perplexity: usize, n: usize },
}

/// Errors from the shortest-path affinity constructor.
#[derive(Debug, Clone, PartialEq)]
pub enum FromShortestPathError {
    EdgeIdOutOfRange { id: usize, n_samples: usize },
    PerplexityTooLarge { perplexity: usize, n: usize },
}

/// The character of decimal digit `d`.
pub open spec fn digit_char(d: nat) -> char {
    if d == 0 {
        '0'
    } else if d == 1 {
        '1'
    } else if d == 2 {
        '2'
    } else if d == 3 {
        '3'
    } else if d == 4 {
        '4'
    } else if d == 5 {
        '5'
    } else if d == 6 {
        '6'
    } else if d == 7 {
        '7'
    } else if d == 8 {
        '8'
    } else {
        '9'
    }
}

/// The decimal digits of `n`, most significant first, without leading zeros.
pub open spec fn decimal(n: nat) -> Seq<char>
    decreases n,
{
    if n < 10 {
        seq![digit_char(n)]
    } else {
        decimal(n / 10) + seq![digit_char(n % 10)]
    }
}

/// The text of decimal digit `d`.
fn digit_str(d: u64) -> (r: &'static str)
    requires
        d < 10,
    ensures
        r@ == seq![digit_char(d as nat)],
{
    if d == 0 {
        proof { reveal_strlit("0"); }
        assert("0"@ =~= seq!['0']);
        "0"
    } else if d == 1 {
        proof { reveal_strlit("1"); }
        assert("1"@ =~= seq!['1']);
        "1"
    } else if d == 2 {
        proof { reveal_strlit("2"); }
        assert("2"@ =~= seq!['2']);
        "2"
    } else if d == 3 {
        proof { reveal_strlit("3"); }
        assert("3"@ =~= seq!['3']);
        "3"
    } else if d == 4 {
        proof { reveal_strlit("4"); }
        assert("4"@ =~= seq!['4']);
        "4"
    } else if d == 5 {
        proof { reveal_strlit("5"); }
        assert("5"@ =~= seq!['5']);
        "5"
    } else if d == 6 {
        proof { reveal_strlit("6"); }
        assert("6"@ =~= seq!['6']);
        "6"
    } else if d == 7 {
        proof { reveal_strlit("7"); }
        assert("7"@ =~= seq!['7']);
        "7"
    } else if d == 8 {
        proof { reveal_strlit("8"); }
        assert("8"@ =~= seq!['8']);
        "8"
    } else {
        proof { reveal_strlit("9"); }
        assert("9"@ =~= seq!['9']);
        "9"
    }
}

/// Appends the decimal digits of `n` to `m`.
fn push_decimal(m: &mut String, n: u64)
    ensures
        final(m)@ == old(m)@ + decimal(n as nat),
    decreases n,
{
    let ghost start = m@;
    if n >= 10 {
        push_decimal(m, n / 10);
    }
    m.append(digit_str(n % 10));
    proof {
        if n >= 10 {
            assert(m@ =~= start + decimal(n as nat));
        } else {
            assert(m@ =~= start + decimal(n as nat));
        }
    }
}

impl FromCsrError {
    /// The error's message.
    pub open spec fn spec_message(&self) -> Seq<char> {
        match *self {
            FromCsrError::WrongRowsLen { expected, actual } => "from_csr: rows has length "@ + decimal(actual as nat) + ", expected n_samples + 1 = "@ + decimal(expected as nat),
            FromCsrError::NonMonotoneRows { at, prev, next } => "from_csr: rows["@ + decimal(at as nat) + "] = "@ + decimal(next as nat) + " is less than rows["@ + decimal((at - 1) as nat) + "] = "@ + decimal(prev as nat),
            FromCsrError::RowsEndMismatch { rows_end, columns_len } => "from_csr: rows[n] = "@ + decimal(rows_end as nat) + " does not match columns.len() = "@ + decimal(columns_len as nat),
            FromCsrError::ColumnOutOfRange { row, entry, column, n_samples } => "from_csr: row "@ + decimal(row as nat) + " entry "@ + decimal(entry as nat) + " has column "@ + decimal(column as nat) + " out of range 0.."@ + decimal(n_samples as nat),
            FromCsrError::ValueNotFinite { row, entry } => "from_csr: value at row "@ + decimal(row as nat) + " entry "@ + decimal(entry as nat) + " is not finite"@,
            FromCsrError::ValueNegative { row, entry } => "from_csr: value at row "@ + decimal(row as nat) + " entry "@ + decimal(entry as nat) + " is negative"@,
            FromCsrError::Asymmetric { row, col } => "from_csr: graph is not symmetric at (row "@ + decimal(row as nat) + ", col "@ + decimal(col as nat) + ")"@,
            FromCsrError::ZeroTotalMass => "from_csr: all values sum to zero; graph cannot be normalised"@,
        }
    }

    /// The error's message, as a line of text.
    pub fn message(&self) -> (m: String)
        requires
            self matches FromCsrError::NonMonotoneRows { at, .. } ==> at >= 1,
        ensures
            m@ == self.spec_message(),
    {
        match self {
            FromCsrError::WrongRowsLen { expected, actual } => {
                let mut m = String::from_str("from_csr: rows has length ");
                push_decimal(&mut m, *actual as u64);
                m.append(", expected n_samples + 1 = ");
                push_decimal(&mut m, *expected as u64);
                m
            },
            FromCsrError::NonMonotoneRows { at, prev, next } => {
                let mut m = String::from_str("from_csr: rows[");
                push_decimal(&mut m, *at as u64);
                m.append("] = ");
                push_decimal(&mut m, *next as u64);
                m.append(" is less than rows[");
                push_decimal(&mut m, (*at - 1) as u64);
                m.append("] = ");
                push_decimal(&mut m, *prev as u64);
                m
            },
            FromCsrError::RowsEndMismatch { rows_end, columns_len } => {
                let mut m = String::from_str("from_csr: rows[n] = ");
                push_decimal(&mut m, *rows_end as u64);
                m.append(" does not match columns.len() = ");
                push_decimal(&mut m, *columns_len as u64);
                m
            },
            FromCsrError::ColumnOutOfRange { row, entry, column, n_samples } => {
                let mut m = String::from_str("from_csr: row ");
                push_decimal(&mut m, *row as u64);
                m.append(" entry ");
                push_decimal(&mut m, *entry as u64);
                m.append(" has column ");
                push_decimal(&mut m, *column as u64);
                m.append(" out of range 0..");
                push_decimal(&mut m, *n_samples as u64);
                m
            },
            FromCsrError::ValueNotFinite { row, entry } => {
                let mut m = String::from_str("from_csr: value at row ");
                push_decimal(&mut m, *row as u64);
                m.append(" entry ");
                push_decimal(&mut m, *entry as u64);
                m.append(" is not finite");
                m
            },
            FromCsrError::ValueNegative { row, entry } => {
                let mut m = String::from_str("from_csr: value at row ");
                push_decimal(&mut m, *row as u64);
                m.append(" entry ");
                push_decimal(&mut m, *entry as u64);
                m.append(" is negative");
                m
            },
            FromCsrError::Asymmetric { row, col } => {
                let mut m = String::from_str("from_csr: graph is not symmetric at (row ");
                push_decimal(&mut m, *row as u64);
                m.append(", col ");
                push_decimal(&mut m, *col as u64);
                m.append(")");
                m
            },
            FromCsrError::ZeroTotalMass => {
                let mut m = String::from_str("from_csr: all values sum to zero; graph cannot be normalised");
                m
            },
        }
    }
}

impl AffinitiesBuilderError {
    /// The error's message.
    pub open spec fn spec_message(&self) -> Seq<char> {
        match *self {
            AffinitiesBuilderError::NonPositiveWeight => "view weight must be strictly positive"@,
            AffinitiesBuilderError::SampleCountMismatch { view, builder } => "view spans "@ + decimal(view as nat) + " samples, expected the builder's "@ + decimal(builder as nat),
            AffinitiesBuilderError::SubsetSizeMismatch { view, subset } => "subset view spans "@ + decimal(view as nat) + " samples, but subset has "@ + decimal(subset as nat) + " ids"@,
            AffinitiesBuilderError::SubsetIdOutOfRange { id, n_samples } => "subset id "@ + decimal(id as nat) + " is out of range 0.."@ + decimal(n_samples as nat),
            AffinitiesBuilderError::DuplicateSubsetId { id } => "subset has duplicate global id "@ + decimal(id as nat),
            AffinitiesBuilderError::NonPositiveTau => "agreement temperature tau must be strictly positive"@,
            AffinitiesBuilderError::NoViews => "builder needs at least one view before building"@,
        }
    }

    /// The error's message, as a line of text.
    pub fn message(&self) -> (m: String)
        ensures
            m@ == self.spec_message(),
    {
        match self {
            AffinitiesBuilderError::NonPositiveWeight => {
                let mut m = String::from_str("view weight must be strictly positive");
                m
            },
            AffinitiesBuilderError::SampleCountMismatch { view, builder } => {
                let mut m = String::from_str("view spans ");
                push_decimal(&mut m, *view as u64);
                m.append(" samples, expected the builder's ");
                push_decimal(&mut m, *builder as u64);
                m
            },
            AffinitiesBuilderError::SubsetSizeMismatch { view, subset } => {
                let mut m = String::from_str("subset view spans ");
                push_decimal(&mut m, *view as u64);
                m.append(" samples, but subset has ");
                push_decimal(&mut m, *subset as u64);
                m.append(" ids");
                m
            },
            AffinitiesBuilderError::SubsetIdOutOfRange { id, n_samples } => {
                let mut m = String::from_str("subset id ");
                push_decimal(&mut m, *id as u64);
                m.append(" is out of range 0..");
                push_decimal(&mut m, *n_samples as u64);
                m
            },
            AffinitiesBuilderError::DuplicateSubsetId { id } => {
                let mut m = String::from_str("subset has duplicate global id ");
                push_decimal(&mut m, *id as u64);
                m
            },
            AffinitiesBuilderError::NonPositiveTau => {
                let mut m = String::from_str("agreement temperature tau must be strictly positive");
                m
            },
            AffinitiesBuilderError::NoViews => {
                let mut m = String::from_str("builder needs at least one view before building");
                m
            },
        }
    }
}

impl PcaError {
    /// The error's message.
    pub open spec fn spec_message(&self) -> Seq<char> {
        match *self {
            PcaError::NoRows => "no rows supplied"@,
            PcaError::ZeroTargetDim => "target_dim must be at least 1"@,
            PcaError::RaggedRows { row, expected, actual } => "row "@ + decimal(row as nat) + " has "@ + decimal(actual as nat) + " entries, expected "@ + decimal(expected as nat),
            PcaError::PerplexityTooLarge { perplexity, n } => "perplexity ~"@ + decimal(perplexity as nat) + " is too large for "@ + decimal(n as nat) + " samples; need 3 * perplexity < n"@,
        }
    }

    /// The error's message, as a line of text.
    pub fn message(&self) -> (m: String)
        ensures
            m@ == self.spec_message(),
    {
        match self {
            PcaError::NoRows => {
                let mut m = String::from_str("no rows supplied");
                m
            },
            PcaError::ZeroTargetDim => {
                let mut m = String::from_str("target_dim must be at least 1");
                m
            },
            PcaError::RaggedRows { row, expected, actual } => {
                let mut m = String::from_str("row ");
                push_decimal(&mut m, *row as u64);
                m.append(" has ");
                push_decimal(&mut m, *actual as u64);
                m.append(" entries, expected ");
                push_decimal(&mut m, *expected as u64);
                m
            },
            PcaError::PerplexityTooLarge { perplexity, n } => {
                let mut m = String::from_str("perplexity ~");
                push_decimal(&mut m, *perplexity as u64);
                m.append(" is too large for ");
                push_decimal(&mut m, *n as u64);
                m.append(" samples; need 3 * perplexity < n");
                m
            },
        }
    }
}

impl FromShortestPathError {
    /// The error's message.
    pub open spec fn spec_message(&self) -> Seq<char> {
        match *self {
            FromShortestPathError::EdgeIdOutOfRange { id, n_samples } => "edge endpoint "@ + decimal(id as nat) + " is out of range 0.."@ + decimal(n_samples as nat),
            FromShortestPathError::PerplexityTooLarge { perplexity, n } => "perplexity ~"@ + decimal(perplexity as nat) + " is too large for "@ + decimal(n as nat) + " samples; need 3 * perplexity < n"@,
        }
    }

    /// The error's message, as a line of text.
    pub fn message(&self) -> (m: String)
        ensures
            m@ == self.spec_message(),
    {
        match self {
            FromShortestPathError::EdgeIdOutOfRange { id, n_samples } => {
                let mut m = String::from_str("edge endpoint ");
                push_decimal(&mut m, *id as u64);
                m.append(" is out of range 0..");
                push_decimal(&mut m, *n_samples as u64);
                m
            },
            FromShortestPathError::PerplexityTooLarge { perplexity, n } => {
                let mut m = String::from_str("perplexity ~");
                push_decimal(&mut m, *perplexity as u64);
                m.append(" is too large for ");
                push_decimal(&mut m, *n as u64);
                m.append(" samples; need 3 * perplexity < n");
                m
            },
        }
    }
}

} // verus!
