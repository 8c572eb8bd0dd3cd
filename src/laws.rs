use vstd::prelude::*;
use crate::printer::{decimal_text, digit_char, digits_text, keyword_text, print_datum, print_items};
use crate::reader::{
    all_digits, atom_of, container_at, digit_value, digits_value, elements_at, form_at, is_digit,
    is_numeral, numeral_value, starts_with,
};
use crate::types::{Datum, KEYWORD_MARK};

verus! {

/// The decimal digits of a natural number are digits, and read back as it.
pub proof fn lemma_digits_text(n: nat)
    ensures
        digits_text(n).len() > 0,
        all_digits(digits_text(n)),
        digits_value(digits_text(n)) == n,
    decreases n,
{
    if n < 10 {
        let s = digits_text(n);
        assert(is_digit(digit_char(n)));
        assert(digit_value(digit_char(n)) == n);
        assert(s.drop_last() =~= Seq::<char>::empty());
        assert(digits_value(s) == digits_value(s.drop_last()) * 10 + digit_value(s.last()));
    } else {
        lemma_digits_text(n / 10);
        let s = digits_text(n);
        assert(s.drop_last() =~= digits_text(n / 10));
        assert(is_digit(digit_char(n % 10)));
        assert(digit_value(digit_char(n % 10)) == n % 10);
        assert(digits_value(s) == digits_value(s.drop_last()) * 10 + digit_value(s.last()));
        assert((n / 10) * 10 + n % 10 == n) by (nonlinear_arith);
        assert forall|i: int| 0 <= i < s.len() implies is_digit(#[trigger] s[i]) by {
            if i < s.len() - 1 {
                assert(s[i] == digits_text(n / 10)[i]);
            }
        }
    }
}

/// The decimal text of an integer is a numeral with that value.
pub proof fn lemma_decimal_text(v: int)
    ensures
        is_numeral(decimal_text(v)),
        numeral_value(decimal_text(v)) == v,
        !starts_with(decimal_text(v), '('),
        !starts_with(decimal_text(v), '['),
{
    let s = decimal_text(v);
    if v < 0 {
        lemma_digits_text((-v) as nat);
        assert(s.drop_first() =~= digits_text((-v) as nat));
    } else {
        lemma_digits_text(v as nat);
        assert(is_digit(s[0]));
    }
}

/// Round trip of atoms: a single token that reads as an atom other than an
/// error prints to a token that reads back as the same value.
pub proof fn lemma_atom_round_trip(tok: Seq<char>)
    requires
        tok.len() > 0,
        !starts_with(tok, '('),
        !starts_with(tok, '['),
        !(form_at(seq![tok], 0).0 is Error),
    ensures
        form_at(seq![print_datum(form_at(seq![tok], 0).0)], 0).0 == form_at(seq![tok], 0).0,
{
    reveal_strlit("true");
    reveal_strlit("false");
    reveal_strlit("nil");
    let d = atom_of(tok);
    assert(form_at(seq![tok], 0).0 == d);
    let p = print_datum(d);
    match d {
        Datum::Number(v) => {
            lemma_decimal_text(v);
        },
        Datum::Keyword(k) => {
            assert(k.drop_first() =~= tok.drop_first());
            assert(keyword_text(k) =~= tok);
        },
        _ => {},
    }
    assert(form_at(seq![p], 0).0 == atom_of(p));
}

/// Whether a token could close a container.
pub open spec fn closes(t: Seq<char>) -> bool {
    starts_with(t, ')') || starts_with(t, ']')
}

/// A tree that the printer renders faithfully: no errors, every number fits
/// in an `i32`, every keyword keeps its mark, and every symbol's text reads back as an atom that prints as that
/// text and neither opens nor closes a container.
pub open spec fn well_printed(d: Datum) -> bool
    decreases d,
{
    match d {
        Datum::List(items) => all_well_printed(items),
        Datum::Vector(items) => all_well_printed(items),
        Datum::Error(_) => false,
        Datum::Keyword(k) => starts_with(k, KEYWORD_MARK),
        Datum::Number(n) => i32::MIN <= n <= i32::MAX,
        Datum::Symbol(s) => {
            &&& !starts_with(s, '(')
            &&& !starts_with(s, '[')
            &&& !closes(s)
            &&& print_datum(atom_of(s)) == s
        },
        _ => true,
    }
}

pub open spec fn all_well_printed(items: Seq<Datum>) -> bool
    decreases items,
{
    if items.len() == 0 {
        true
    } else {
        well_printed(items[0]) && all_well_printed(items.drop_first())
    }
}

/// The tokens that the printed form of a tree consists of: a token for each
/// delimiter and one for each atom.
pub open spec fn print_tokens(d: Datum) -> Seq<Seq<char>>
    decreases d,
{
    match d {
        Datum::List(items) => seq![seq!['(']] + items_tokens(items) + seq![seq![')']],
        Datum::Vector(items) => seq![seq!['[']] + items_tokens(items) + seq![seq![']']],
        _ => seq![print_datum(d)],
    }
}

pub open spec fn items_tokens(items: Seq<Datum>) -> Seq<Seq<char>>
    decreases items,
{
    if items.len() == 0 {
        Seq::empty()
    } else {
        print_tokens(items[0]) + items_tokens(items.drop_first())
    }
}

/// Two sequences of values whose elements print alike print alike.
pub proof fn lemma_print_items_pointwise(a: Seq<Datum>, b: Seq<Datum>)
    requires
        a.len() == b.len(),
        forall|i: int| 0 <= i < a.len() ==> print_datum(#[trigger] a[i]) == print_datum(b[i]),
    ensures
        print_items(a) == print_items(b),
    decreases a.len(),
{
    if a.len() > 1 {
        lemma_print_items_pointwise(a.drop_last(), b.drop_last());
        assert(print_datum(a[a.len() - 1]) == print_datum(b[b.len() - 1]));
    } else if a.len() == 1 {
        assert(print_datum(a[0]) == print_datum(b[0]));
    }
}

/// The first token of a well-printed tree opens a container exactly when the
/// tree is one, and never closes one.
pub proof fn lemma_first_token(d: Datum)
    requires
        well_printed(d),
    ensures
        print_tokens(d).len() > 0,
        !closes(print_tokens(d)[0]),
        d is List <==> starts_with(print_tokens(d)[0], '('),
        d is Vector <==> starts_with(print_tokens(d)[0], '['),
{
    reveal_strlit("true");
    reveal_strlit("false");
    reveal_strlit("nil");
    match d {
        Datum::Number(v) => {
            lemma_decimal_text(v);
            let s = decimal_text(v);
            if v >= 0 {
                lemma_digits_text(v as nat);
                assert(is_digit(s[0]));
            }
        },
        _ => {},
    }
}

/// An atom of a well-printed tree prints to a token that reads back as a
/// value that prints the same.
pub proof fn lemma_atom_reads_back(d: Datum)
    requires
        well_printed(d),
        !(d is List),
        !(d is Vector),
    ensures
        print_datum(atom_of(print_datum(d))) == print_datum(d),
{
    reveal_strlit("true");
    reveal_strlit("false");
    reveal_strlit("nil");
    match d {
        Datum::Number(v) => {
            lemma_decimal_text(v);
        },
        Datum::Keyword(k) => {
            let t = keyword_text(k);
            assert(t.drop_first() =~= k.drop_first());
            assert(seq![KEYWORD_MARK] + t.drop_first() =~= k);
        },
        _ => {},
    }
}

/// Reading the printed tokens of a well-printed tree, wherever they stand in
/// a token sequence, takes exactly those tokens and gives a tree that prints
/// as the tree itself.
pub proof fn lemma_form_reads_back(toks: Seq<Seq<char>>, pos: int, d: Datum)
    requires
        well_printed(d),
        0 <= pos,
        pos + print_tokens(d).len() <= toks.len(),
        toks.subrange(pos, pos + print_tokens(d).len()) == print_tokens(d),
    ensures
        form_at(toks, pos).1 == pos + print_tokens(d).len(),
        print_datum(form_at(toks, pos).0) == print_datum(d),
    decreases d, 2int,
{
    lemma_first_token(d);
    assert(toks[pos] == print_tokens(d)[0]);
    match d {
        Datum::List(items) => {
            lemma_container_reads_back(toks, pos, items, '(', ')');
        },
        Datum::Vector(items) => {
            lemma_container_reads_back(toks, pos, items, '[', ']');
        },
        _ => {
            lemma_atom_reads_back(d);
        },
    }
}

pub proof fn lemma_container_reads_back(
    toks: Seq<Seq<char>>,
    pos: int,
    items: Seq<Datum>,
    left: char,
    right: char,
)
    requires
        all_well_printed(items),
        right == ')' || right == ']',
        0 <= pos,
        pos + items_tokens(items).len() + 2 <= toks.len(),
        toks.subrange(pos, pos + items_tokens(items).len() + 2) == seq![seq![left]]
            + items_tokens(items) + seq![seq![right]],
    ensures
        ({
            let (r, p) = container_at(toks, pos, left, right);
            &&& p == pos + items_tokens(items).len() + 2
            &&& r matches Ok(read) && read.len() == items.len() && print_items(read) == print_items(items)
        }),
    decreases items, 1int,
{
    let whole = seq![seq![left]] + items_tokens(items) + seq![seq![right]];
    assert(toks[pos] == whole[0]);
    assert(toks.subrange(pos + 1, pos + items_tokens(items).len() + 2) == items_tokens(items) + seq![seq![right]]) by {
        assert(toks.subrange(pos + 1, pos + items_tokens(items).len() + 2) =~= whole.drop_first());
        assert(whole.drop_first() =~= items_tokens(items) + seq![seq![right]]);
    }
    lemma_elements_read_back(toks, pos + 1, items, right, Seq::empty());
    let (r, p) = container_at(toks, pos, left, right);
    let read = r->Ok_0;
    assert forall|i: int| 0 <= i < read.len() implies print_datum(#[trigger] read[i]) == print_datum(
        items[i],
    ) by {
        assert(read[0 + i] == read[i]);
    }
    lemma_print_items_pointwise(read, items);
}

pub proof fn lemma_elements_read_back(
    toks: Seq<Seq<char>>,
    pos: int,
    items: Seq<Datum>,
    right: char,
    done: Seq<Datum>,
)
    requires
        all_well_printed(items),
        right == ')' || right == ']',
        0 <= pos,
        pos + items_tokens(items).len() + 1 <= toks.len(),
        toks.subrange(pos, pos + items_tokens(items).len() + 1) == items_tokens(items) + seq![seq![right]],
    ensures
        ({
            let (r, p) = elements_at(toks, pos, right, done);
            &&& p == pos + items_tokens(items).len() + 1
            &&& r matches Ok(read) && read.len() == done.len() + items.len()
                && read.subrange(0, done.len() as int) == done
                && forall|i: int| 0 <= i < items.len()
                    ==> print_datum(#[trigger] read[done.len() + i]) == print_datum(items[i])
        }),
    decreases items, 0int,
{
    let rest = items_tokens(items) + seq![seq![right]];
    assert(toks[pos] == rest[0]);
    if items.len() == 0 {
        assert(starts_with(seq![right], right));
        let (r, p) = elements_at(toks, pos, right, done);
        assert(r->Ok_0 =~= done);
        assert(done.subrange(0, done.len() as int) =~= done);
    } else {
        let first = items[0];
        let n = print_tokens(first).len() as int;
        let m = items_tokens(items.drop_first()).len() as int;
        assert(items_tokens(items) == print_tokens(first) + items_tokens(items.drop_first()));
        assert(toks.subrange(pos, pos + n) == print_tokens(first)) by {
            assert(toks.subrange(pos, pos + n) =~= rest.subrange(0, n));
            assert(rest.subrange(0, n) =~= print_tokens(first));
        }
        assert(toks.subrange(pos + n, pos + n + m + 1) == items_tokens(items.drop_first())
            + seq![seq![right]]) by {
            assert(toks.subrange(pos + n, pos + n + m + 1) =~= rest.subrange(n, n + m + 1));
            assert(rest.subrange(n, n + m + 1) =~= items_tokens(items.drop_first()) + seq![seq![right]]);
        }
        lemma_first_token(first);
        assert(toks[pos] == print_tokens(first)[0]);
        lemma_form_reads_back(toks, pos, first);
        let (d, p) = form_at(toks, pos);
        lemma_elements_read_back(toks, pos + n, items.drop_first(), right, done.push(d));
        let (r, q) = elements_at(toks, pos, right, done);
        assert(elements_at(toks, pos, right, done) == elements_at(toks, p, right, done.push(d)));
        let read = r->Ok_0;
        assert(read.subrange(0, (done.len() + 1) as int) == done.push(d));
        assert(read.subrange(0, done.len() as int) =~= done) by {
            assert(read.subrange(0, done.len() as int) =~= read.subrange(0, (done.len() + 1) as int).subrange(0, done.len() as int));
        }
        assert forall|i: int| 0 <= i < items.len() implies print_datum(#[trigger] read[done.len() + i])
            == print_datum(items[i]) by {
            if i == 0 {
                assert(read[done.len() as int] == read.subrange(0, (done.len() + 1) as int)[done.len() as int]);
            } else {
                assert(read[((done.len() + 1) as int) + (i - 1)] == read[done.len() + i]);
                assert(items.drop_first()[i - 1] == items[i]);
            }
        }
    }
}

/// Printing is idempotent through reading, on the printer's own tokens: the
/// tokens of a well-printed tree read back, all of them, as a tree that
/// prints the same.
pub proof fn lemma_print_read_print(d: Datum)
    requires
        well_printed(d),
    ensures
        form_at(print_tokens(d), 0).1 == print_tokens(d).len(),
        print_datum(form_at(print_tokens(d), 0).0) == print_datum(d),
{
    let toks = print_tokens(d);
    assert(toks.subrange(0, toks.len() as int) =~= toks);
    lemma_form_reads_back(toks, 0, d);
}

} // verus!
