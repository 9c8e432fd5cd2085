//! Embedding columns and matrices.

use crate::count::EmbeddingDim;
use crate::error::Error;
use crate::scalar::Scalar;
use vstd::prelude::*;
use vstd::std_specs::convert::TryFromSpecImpl;

verus! {

/// Whether `c` has the Unicode property `White_Space`.
pub open spec fn white_space(c: char) -> bool {
    ||| '\u{9}' <= c <= '\u{d}'
    ||| c == '\u{20}'
    ||| c == '\u{85}'
    ||| c == '\u{a0}'
    ||| c == '\u{1680}'
    ||| '\u{2000}' <= c <= '\u{200a}'
    ||| c == '\u{2028}'
    ||| c == '\u{2029}'
    ||| c == '\u{202f}'
    ||| c == '\u{205f}'
    ||| c == '\u{3000}'
}

/// Whether `text` holds nothing but white space, so that trimming leaves nothing.
pub open spec fn blank(text: Seq<char>) -> bool {
    forall|i: int| 0 <= i < text.len() ==> white_space(#[trigger] text[i])
}

/// A name is blank only if it has nothing but white space: a single letter, digit
/// or other visible ASCII character makes it a name. Spaces, tabs and line breaks
/// do not.
pub proof fn law_a_visible_character_makes_a_name(text: Seq<char>, i: int)
    requires
        0 <= i < text.len(),
    ensures
        '\u{21}' <= text[i] <= '\u{7e}' ==> !blank(text),
        text[i] == ' ' || text[i] == '\t' || text[i] == '\n' || text[i] == '\r' ==> (blank(text) <==> blank(
            text.remove(i),
        )),
{
    let rest = text.remove(i);
    assert('\u{21}' <= text[i] <= '\u{7e}' ==> !white_space(text[i]));
    if text[i] == ' ' || text[i] == '\t' || text[i] == '\n' || text[i] == '\r' {
        if blank(text) {
            assert forall|j: int| 0 <= j < rest.len() implies white_space(#[trigger] rest[j]) by {
                assert(rest[j] == if j < i {
                    text[j]
                } else {
                    text[j + 1]
                });
            }
        }
        if blank(rest) {
            assert forall|j: int| 0 <= j < text.len() implies white_space(#[trigger] text[j]) by {
                if j < i {
                    assert(rest[j] == text[j]);
                } else if j > i {
                    assert(rest[j - 1] == text[j]);
                }
            }
        }
    }
}

fn is_white_space(c: char) -> (r: bool)
    ensures
        r == white_space(c),
{
    ('\u{9}' <= c && c <= '\u{d}') || c == '\u{20}' || c == '\u{85}' || c == '\u{a0}' || c == '\u{1680}' || (
    '\u{2000}' <= c && c <= '\u{200a}') || c == '\u{2028}' || c == '\u{2029}' || c == '\u{202f}' || c
        == '\u{205f}' || c == '\u{3000}'
}

fn is_blank(text: &str) -> (r: bool)
    ensures
        r == blank(text@),
{
    let mut all: bool = true;
    for c in it: text.chars()
        invariant
            it.seq() == text@,
            all == (forall|i: int| 0 <= i < it.index() ==> white_space(#[trigger] text@[i])),
    {
        all = all && is_white_space(c);
    }
    all
}

/// Non-empty embedding column name.
#[derive(Debug, PartialEq, Eq)]
pub struct EmbeddingColumn {
    name: String,
}

impl View for EmbeddingColumn {
    type V = Seq<char>;

    closed spec fn view(&self) -> Seq<char> {
        self.name@
    }
}

impl EmbeddingColumn {
    #[verifier::type_invariant]
    spec fn named(self) -> bool {
        !blank(self.name@)
    }

    /// A column of that name, unless the name is blank.
    pub fn new(name: String) -> (r: Result<Self, Error>)
        ensures
            blank(name@) ==> r == Err::<Self, Error>(Error::EmptyColumnName),
            !blank(name@) ==> r is Ok && r->Ok_0@ == name@,
    {
        if is_blank(name.as_str()) {
            Err(Error::EmptyColumnName)
        } else {
            Ok(EmbeddingColumn { name })
        }
    }

    /// Whether `name` is the name of this column.
    pub fn is_named(&self, name: &String) -> (r: bool)
        ensures
            r == (name@ == self@),
    {
        self.name == *name
    }

    /// The name.
    pub fn as_str(&self) -> (r: &str)
        ensures
            r@ == self@,
            !blank(r@),
    {
        proof {
            use_type_invariant(self);
        }
        self.name.as_str()
    }
}

impl Clone for EmbeddingColumn {
    fn clone(&self) -> (r: Self)
        ensures
            r@ == self@,
    {
        proof {
            use_type_invariant(self);
        }
        EmbeddingColumn { name: self.name.clone() }
    }
}

impl TryFrom<&str> for EmbeddingColumn {
    type Error = Error;

    fn try_from(value: &str) -> (r: Result<Self, Error>)
        ensures
            blank(value@) ==> r == Err::<Self, Error>(Error::EmptyColumnName),
            !blank(value@) ==> r is Ok && r->Ok_0@ == value@,
    {
        Self::new(value.to_owned())
    }
}

impl TryFromSpecImpl<&str> for EmbeddingColumn {
    open spec fn obeys_try_from_spec() -> bool {
        false
    }

    open spec fn try_from_spec(value: &str) -> Result<Self, Error> {
        arbitrary()
    }
}

impl TryFrom<String> for EmbeddingColumn {
    type Error = Error;

    fn try_from(value: String) -> (r: Result<Self, Error>)
        ensures
            blank(value@) ==> r == Err::<Self, Error>(Error::EmptyColumnName),
            !blank(value@) ==> r is Ok && r->Ok_0@ == value@,
    {
        Self::new(value)
    }
}

impl TryFromSpecImpl<String> for EmbeddingColumn {
    open spec fn obeys_try_from_spec() -> bool {
        false
    }

    open spec fn try_from_spec(value: String) -> Result<Self, Error> {
        arbitrary()
    }
}

/// The `i`-th row of a row-major matrix of width `dim`.
pub open spec fn row(data: Seq<Scalar>, dim: nat, i: int) -> Seq<Scalar> {
    data.subrange(i * dim, (i + 1) * dim)
}

/// Row `i` of a matrix of `rows` rows lies within it.
pub proof fn lemma_row_within(rows: int, dim: int, i: int)
    requires
        0 <= i < rows,
        0 <= dim,
    ensures
        0 <= i * dim,
        (i + 1) * dim == i * dim + dim,
        (i + 1) * dim <= rows * dim,
{
    assert(0 <= i * dim) by (nonlinear_arith)
        requires
            0 <= i,
            0 <= dim,
    ;
    assert((i + 1) * dim == i * dim + dim) by (nonlinear_arith);
    assert((i + 1) * dim <= rows * dim) by (nonlinear_arith)
        requires
            i + 1 <= rows,
            0 <= dim,
    ;
}

/// A matrix whose length is a multiple of its width has `len / dim` rows.
pub proof fn lemma_rows_of(len: int, dim: int)
    requires
        dim > 0,
        len >= 0,
        len % dim == 0,
    ensures
        (len / dim) * dim == len,
        0 <= len / dim <= len,
{
    vstd::arithmetic::div_mod::lemma_fundamental_div_mod(len, dim);
    vstd::arithmetic::div_mod::lemma_div_pos_is_pos(len, dim);
    assert(dim * (len / dim) == (len / dim) * dim) by (nonlinear_arith);
    assert(len / dim <= (len / dim) * dim) by (nonlinear_arith)
        requires
            dim >= 1,
            len / dim >= 0,
    ;
}

/// A whole number of rows divides evenly.
pub proof fn lemma_whole_rows(rows: int, dim: int)
    requires
        dim > 0,
        rows >= 0,
    ensures
        (rows * dim) % dim == 0,
        (rows * dim) / dim == rows,
{
    vstd::arithmetic::div_mod::lemma_mod_multiples_basic(rows, dim);
    vstd::arithmetic::div_mod::lemma_div_by_multiple(rows, dim);
}

/// The `i`-th row of a row-major matrix of width `dim`.
pub fn row_of(data: &[Scalar], dim: usize, i: usize) -> (r: &[Scalar])
    requires
        (i + 1) * dim <= data@.len(),
    ensures
        r@ == row(data@, dim as nat, i as int),
        r@.len() == dim,
{
    proof {
        lemma_row_within(i + 1, dim as int, i as int);
        assert(data@.len() == data.len());
    }
    let start: usize = i * dim;
    vstd::slice::slice_subrange(data, start, start + dim)
}

/// Validated embedding matrix (row-major).
#[derive(Debug)]
pub struct Embeddings {
    data: Vec<Scalar>,
    dim: EmbeddingDim,
}

impl Embeddings {
    /// The values, row after row.
    pub closed spec fn values(&self) -> Seq<Scalar> {
        self.data@
    }

    /// The length of a row.
    pub closed spec fn width(&self) -> nat {
        self.dim@ as nat
    }

    /// How many rows there are.
    pub open spec fn rows(&self) -> nat {
        self.values().len() / self.width()
    }

    /// The length of the data is a multiple of the dimension.
    #[verifier::type_invariant]
    spec fn rectangular(self) -> bool {
        self.dim@ > 0 && self.data@.len() % (self.dim@ as nat) == 0
    }

    /// A matrix of rows of length `dim`, unless `data` does not divide into such rows.
    pub fn new(data: Vec<Scalar>, dim: EmbeddingDim) -> (r: Result<Self, Error>)
        ensures
            data@.len() % (dim@ as nat) != 0 ==> r == Err::<Self, Error>(Error::RaggedEmbeddings),
            data@.len() % (dim@ as nat) == 0 ==> {
                &&& r is Ok
                &&& r->Ok_0.values() == data@
                &&& r->Ok_0.width() == dim@
            },
    {
        if data.len() % dim.as_usize() != 0 {
            Err(Error::RaggedEmbeddings)
        } else {
            Ok(Embeddings { data, dim })
        }
    }

    /// The values, row after row.
    pub fn data(&self) -> (r: &[Scalar])
        ensures
            r@ == self.values(),
            self.width() > 0,
            r@.len() == self.rows() * self.width(),
    {
        proof {
            use_type_invariant(self);
            lemma_rows_of(self.data@.len() as int, self.dim@ as int);
        }
        self.data.as_slice()
    }

    /// The length of a row.
    pub fn dim(&self) -> (r: EmbeddingDim)
        ensures
            r@ == self.width(),
            r@ > 0,
    {
        proof {
            use_type_invariant(self);
        }
        self.dim
    }

    /// How many rows there are.
    pub fn row_count(&self) -> (r: usize)
        ensures
            r == self.rows(),
            self.width() > 0,
            self.values().len() == r * self.width(),
    {
        proof {
            use_type_invariant(self);
            lemma_rows_of(self.data@.len() as int, self.dim@ as int);
        }
        self.data.len() / self.dim.as_usize()
    }
}

impl Clone for Embeddings {
    fn clone(&self) -> (r: Self)
        ensures
            r.values() == self.values(),
            r.width() == self.width(),
    {
        proof {
            use_type_invariant(self);
        }
        let data = self.data.clone();
        assert(data@ =~= self.data@);
        Embeddings { data, dim: self.dim }
    }
}

} // verus!
