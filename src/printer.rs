use vstd::prelude::*;
use crate::types::{data_of, datum_of, lemma_data_of_push, Datum, MalType, KEYWORD_MARK};

verus! {

/// The character that stands for decimal digit `d`.
pub open spec fn digit_char(d: nat) -> char {
    ((d + 48) as u8) as char
}

/// The decimal digits of a natural number, most significant first, without
/// leading zeros.
pub open spec fn digits_text(n: nat) -> Seq<char>
    decreases n,
{
    if n < 10 {
        seq![digit_char(n)]
    } else {
        digits_text(n / 10).push(digit_char(n % 10))
    }
}

/// An integer in decimal, with a leading `-` when it is negative.
pub open spec fn decimal_text(n: int) -> Seq<char> {
    if n < 0 {
        seq!['-'] + digits_text((-n) as nat)
    } else {
        digits_text(n as nat)
    }
}

/// How a keyword is printed: its mark becomes a `:` again. Text that does not
/// start with the mark is printed as it is.
pub open spec fn keyword_text(k: Seq<char>) -> Seq<char> {
    if k.len() > 0 && k[0] == KEYWORD_MARK {
        seq![':'] + k.drop_first()
    } else {
        k
    }
}

/// The printed form of a value.
pub open spec fn print_datum(d: Datum) -> Seq<char>
    decreases d,
{
    match d {
        Datum::List(items) => seq!['('] + print_items(items) + seq![')'],
        Datum::Vector(items) => seq!['['] + print_items(items) + seq![']'],
        Datum::Number(n) => decimal_text(n),
        Datum::Symbol(s) => s,
        Datum::Bool(b) => if b { "true"@ } else { "false"@ },
        Datum::Nil => "nil"@,
        Datum::Error(s) => s,
        Datum::Keyword(k) => keyword_text(k),
    }
}

/// The printed forms of a sequence of values, separated by single spaces.
pub open spec fn print_items(items: Seq<Datum>) -> Seq<char>
    decreases items,
{
    if items.len() == 0 {
        Seq::empty()
    } else if items.len() == 1 {
        print_datum(items[0])
    } else {
        print_items(items.drop_last()) + seq![' '] + print_datum(items.last())
    }
}

/// Relies on `i32`'s `ToString` (through `Display`): plain decimal, with a
/// leading `-` for negative numbers.
#[verifier::external_body]
fn number_text(n: i32) -> (r: String)
    ensures
        r@ == decimal_text(n as int),
{
    n.to_string()
}

pub fn pr_str(mt: &MalType) -> (r: String)
    ensures
        r@ == print_datum(mt@),
    decreases mt,
{
    match mt {
        MalType::MalNumber(val) => number_text(*val),
        MalType::MalSymbol(val) => val.clone(),
        MalType::MalError(val) => val.clone(),
        MalType::MalKeyword(val) => print_keyword(val),
        MalType::MalBool(val) => {
            if *val {
                String::from_str("true")
            } else {
                String::from_str("false")
            }
        },
        MalType::MalNil => String::from_str("nil"),
        MalType::MalList { elm } => {
            proof {
                reveal_strlit("(");
                reveal_strlit(")");
            }
            print_listlike(elm, String::from_str("("), ")")
        },
        MalType::MalVector { elm } => {
            proof {
                reveal_strlit("[");
                reveal_strlit("]");
            }
            print_listlike(elm, String::from_str("["), "]")
        },
    }
}

fn print_keyword(k: &String) -> (r: String)
    ensures
        r@ == keyword_text(k@),
{
    let n = k.as_str().unicode_len();
    if n > 0 && k.as_str().get_char(0) == KEYWORD_MARK {
        let rest = k.as_str().substring_char(1, n);
        let r = String::from_str(":").concat(rest);
        proof {
            reveal_strlit(":");
        }
        r
    } else {
        k.clone()
    }
}

fn print_listlike(elm: &Vec<MalType>, left: String, right: &str) -> (r: String)
    ensures
        r@ == left@ + print_items(data_of(elm@)) + right@,
    decreases elm,
{
    let mut s = left;
    let mut i: usize = 0;
    proof {
        assert(elm@.subrange(0, 0) =~= Seq::<MalType>::empty());
    }
    while i < elm.len()
        invariant
            i <= elm.len(),
            s@ == left@ + print_items(data_of(elm@.subrange(0, i as int))),
        decreases elm.len() - i,
    {
        let ghost pre = elm@.subrange(0, i as int);
        if i > 0 {
            s.append(" ");
        }
        let p = pr_str(&elm[i]);
        s.append(p.as_str());
        proof {
            assert(elm@.subrange(0, i + 1) =~= pre.push(elm@[i as int]));
            lemma_data_of_push(pre, elm@[i as int]);
            let items = data_of(pre).push(datum_of(elm@[i as int]));
            assert(items.drop_last() =~= data_of(pre));
            if i == 0 {
                assert(data_of(pre) =~= Seq::<Datum>::empty());
                assert(p@ == print_datum(datum_of(elm@[i as int])));
                assert(s@ =~= left@ + print_items(items));
            } else {
                reveal_strlit(" ");
                assert(s@ =~= left@ + print_items(items));
            }
        }
        i = i + 1;
    }
    proof {
        assert(elm@.subrange(0, elm.len() as int) =~= elm@);
    }
    s.append(right);
    s
}

} // verus!
