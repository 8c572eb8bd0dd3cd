use vstd::prelude::*;

verus! {

/// The character that opens the stored text of every keyword. Nothing a user
/// types as a symbol starts with it, so keywords never collide with symbols.
pub const KEYWORD_MARK: char = '\u{29e}';

/// A value of the language, as the reader builds it and the printer renders it.
#[derive(PartialEq, Debug)]
pub enum MalType {
    MalList { elm: Vec<MalType> },
    MalVector { elm: Vec<MalType> },
    MalNumber(i32),
    MalSymbol(String),
    MalBool(bool),
    MalNil,
    MalError(String),
    MalKeyword(String),
}

/// The mathematical model of a `MalType`: the same tree, with sequences of
/// characters for text and sequences of models for containers.
pub enum Datum {
    List(Seq<Datum>),
    Vector(Seq<Datum>),
    Number(int),
    Symbol(Seq<char>),
    Bool(bool),
    Nil,
    Error(Seq<char>),
    Keyword(Seq<char>),
}

pub open spec fn datum_of(m: MalType) -> Datum
    decreases m,
{
    match m {
        MalType::MalList { elm } => Datum::List(data_of(elm@)),
        MalType::MalVector { elm } => Datum::Vector(data_of(elm@)),
        MalType::MalNumber(n) => Datum::Number(n as int),
        MalType::MalSymbol(s) => Datum::Symbol(s@),
        MalType::MalBool(b) => Datum::Bool(b),
        MalType::MalNil => Datum::Nil,
        MalType::MalError(s) => Datum::Error(s@),
        MalType::MalKeyword(s) => Datum::Keyword(s@),
    }
}

/// The models of a sequence of values, element by element.
pub open spec fn data_of(s: Seq<MalType>) -> Seq<Datum>
    decreases s,
{
    if s.len() == 0 {
        Seq::empty()
    } else {
        data_of(s.drop_last()).push(datum_of(s.last()))
    }
}

impl View for MalType {
    type V = Datum;

    open spec fn view(&self) -> Datum {
        datum_of(*self)
    }
}

pub proof fn lemma_data_of_push(s: Seq<MalType>, m: MalType)
    ensures
        data_of(s.push(m)) == data_of(s).push(datum_of(m)),
{
    assert(s.push(m).drop_last() =~= s);
}

} // verus!
