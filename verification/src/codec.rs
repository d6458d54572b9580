//! The textual codec for the persisted document: a fixed, pretty-printed
//! JSON shape, written and read by verified code. The printer is total; the
//! parser accepts exactly the canonical text and answers `None` on anything
//! else, which the loader turns into the default document.
use vstd::prelude::*;

use vstd::string::StringExecFns;

use crate::model::{default_document, Category, CategoryModel, Document, DocumentModel, Item, ItemModel};

verus! {

// ---------- characters and digits ----------

/// A decimal digit.
pub open spec fn is_digit(c: char) -> bool {
    48 <= c as u32 <= 57
}

/// The character for one digit value.
pub open spec fn digit_char(d: nat) -> char
    recommends
        d < 10,
{
    ((48 + d) as u8) as char
}

/// The value of one digit character.
pub open spec fn digit_val(c: char) -> nat
    recommends
        is_digit(c),
{
    (c as u32 - 48) as nat
}

// ---------- string tokens ----------

/// One character as it appears inside a quoted token.
pub open spec fn escape_char(c: char) -> Seq<char> {
    if c == '"' {
        seq!['\\', '"']
    } else if c == '\\' {
        seq!['\\', '\\']
    } else if c == '\n' {
        seq!['\\', 'n']
    } else if c == '\r' {
        seq!['\\', 'r']
    } else if c == '\t' {
        seq!['\\', 't']
    } else {
        seq![c]
    }
}

/// The body of a quoted token.
pub open spec fn escape(s: Seq<char>) -> Seq<char>
    decreases s.len(),
{
    if s.len() == 0 {
        Seq::empty()
    } else {
        escape_char(s[0]) + escape(s.drop_first())
    }
}

/// A string rendered as a quoted, escaped token.
pub open spec fn print_string(s: Seq<char>) -> Seq<char> {
    seq!['"'] + escape(s) + seq!['"']
}

/// The character an escape code stands for.
pub open spec fn unescape_char(c: char) -> char {
    if c == 'n' {
        '\n'
    } else if c == 'r' {
        '\r'
    } else if c == 't' {
        '\t'
    } else {
        c
    }
}

/// Reads a quoted token's body up to and including the closing quote;
/// answers the content and what follows.
pub open spec fn parse_string_body(s: Seq<char>) -> Option<(Seq<char>, Seq<char>)>
    decreases s.len(),
{
    if s.len() == 0 {
        None
    } else if s[0] == '"' {
        Some((Seq::empty(), s.drop_first()))
    } else if s[0] == '\\' {
        if s.len() < 2 {
            None
        } else if s[1] == '"' || s[1] == '\\' || s[1] == 'n' || s[1] == 'r' || s[1] == 't' {
            match parse_string_body(s.skip(2)) {
                None => None,
                Some((t, r)) => Some((seq![unescape_char(s[1])] + t, r)),
            }
        } else {
            None
        }
    } else {
        match parse_string_body(s.drop_first()) {
            None => None,
            Some((t, r)) => Some((seq![s[0]] + t, r)),
        }
    }
}

/// Reads a whole quoted token.
pub open spec fn parse_string(s: Seq<char>) -> Option<(Seq<char>, Seq<char>)> {
    if s.len() > 0 && s[0] == '"' {
        parse_string_body(s.drop_first())
    } else {
        None
    }
}

/// Escaping distributes over concatenation.
pub proof fn lemma_escape_append(a: Seq<char>, b: Seq<char>)
    ensures
        escape(a + b) == escape(a) + escape(b),
    decreases a.len(),
{
    if a.len() == 0 {
        assert(a + b =~= b);
        assert(escape(a) + escape(b) =~= escape(b));
    } else {
        assert((a + b).drop_first() =~= a.drop_first() + b);
        assert((a + b)[0] == a[0]);
        lemma_escape_append(a.drop_first(), b);
        assert(escape_char(a[0]) + (escape(a.drop_first()) + escape(b)) =~= escape_char(a[0])
            + escape(a.drop_first()) + escape(b));
    }
}

/// Reading back a printed token recovers the string exactly.
pub proof fn lemma_parse_string_body_round(t: Seq<char>, rest: Seq<char>)
    ensures
        parse_string_body(escape(t) + seq!['"'] + rest) == Some((t, rest)),
    decreases t.len(),
{
    let s = escape(t) + seq!['"'] + rest;
    if t.len() == 0 {
        assert(s =~= seq!['"'] + rest);
        assert(s[0] == '"');
        assert(s.drop_first() =~= rest);
    } else {
        let c = t[0];
        let tail = escape(t.drop_first()) + seq!['"'] + rest;
        assert(s =~= escape_char(c) + tail);
        lemma_parse_string_body_round(t.drop_first(), rest);
        if c == '"' || c == '\\' || c == '\n' || c == '\r' || c == '\t' {
            assert(escape_char(c).len() == 2);
            assert(s[0] == '\\');
            assert(s[1] == escape_char(c)[1]);
            assert(s.skip(2) =~= tail);
            assert(unescape_char(s[1]) == c);
            assert(seq![c] + t.drop_first() =~= t);
        } else {
            assert(s[0] == c);
            assert(c != '"' && c != '\\');
            assert(s.drop_first() =~= tail);
            assert(seq![c] + t.drop_first() =~= t);
        }
    }
}

/// Reading back a printed string token.
pub proof fn lemma_parse_string_round(t: Seq<char>, rest: Seq<char>)
    ensures
        parse_string(print_string(t) + rest) == Some((t, rest)),
{
    let s = print_string(t) + rest;
    assert(s[0] == '"');
    assert(s.drop_first() =~= escape(t) + seq!['"'] + rest);
    lemma_parse_string_body_round(t, rest);
}

// ---------- numbers ----------

/// A number in decimal, most significant digit first.
pub open spec fn dec_digits(n: nat) -> Seq<char>
    decreases n,
{
    if n < 10 {
        seq![digit_char(n)]
    } else {
        dec_digits(n / 10) + seq![digit_char(n % 10)]
    }
}

/// Accumulates digits left to right; answers on the first non-digit.
/// Values that would not fit a `usize` are refused.
pub open spec fn parse_digits(s: Seq<char>, acc: nat) -> Option<(nat, Seq<char>)>
    decreases s.len(),
{
    if s.len() > 0 && is_digit(s[0]) {
        if acc * 10 + digit_val(s[0]) > usize::MAX as nat {
            None
        } else {
            parse_digits(s.drop_first(), acc * 10 + digit_val(s[0]))
        }
    } else {
        Some((acc, s))
    }
}

/// Reads a number token: at least one digit.
pub open spec fn parse_number(s: Seq<char>) -> Option<(nat, Seq<char>)> {
    if s.len() > 0 && is_digit(s[0]) {
        parse_digits(s, 0)
    } else {
        None
    }
}

/// Ten to the power `k`.
pub open spec fn pow10(k: nat) -> nat
    decreases k,
{
    if k == 0 {
        1nat
    } else {
        10 * pow10((k - 1) as nat)
    }
}

proof fn lemma_pow10_pos(k: nat)
    ensures
        pow10(k) >= 1,
    decreases k,
{
    if k > 0 {
        lemma_pow10_pos((k - 1) as nat);
    }
}

/// Every printed character is a digit.
proof fn lemma_dec_digits_all(n: nat)
    ensures
        dec_digits(n).len() >= 1,
        forall|i: int| 0 <= i < dec_digits(n).len() ==> is_digit(#[trigger] dec_digits(n)[i]),
    decreases n,
{
    if n < 10 {
        assert(is_digit(digit_char(n))) by {
            assert(digit_char(n) as u32 == 48 + n);
        }
    } else {
        lemma_dec_digits_all(n / 10);
        assert(is_digit(digit_char(n % 10))) by {
            assert(digit_char(n % 10) as u32 == 48 + n % 10);
        }
        assert forall|i: int| 0 <= i < dec_digits(n).len() implies is_digit(
            #[trigger] dec_digits(n)[i],
        ) by {
            if i < dec_digits(n / 10).len() {
                assert(dec_digits(n)[i] == dec_digits(n / 10)[i]);
            } else {
                assert(dec_digits(n)[i] == digit_char(n % 10));
            }
        }
    }
}

/// The value a digit sequence stands for.
pub open spec fn seq_val(s: Seq<char>) -> nat
    decreases s.len(),
{
    if s.len() == 0 {
        0
    } else {
        seq_val(s.drop_last()) * 10 + digit_val(s.last())
    }
}

/// The printed digits stand for the number itself.
proof fn lemma_dec_digits_val(n: nat)
    ensures
        seq_val(dec_digits(n)) == n,
    decreases n,
{
    if n < 10 {
        assert(dec_digits(n).drop_last() =~= Seq::<char>::empty());
        assert(digit_val(digit_char(n)) == n) by {
            assert(digit_char(n) as u32 == 48 + n);
        }
        assert(dec_digits(n).last() == digit_char(n));
        assert(dec_digits(n).len() == 1);
        assert(seq_val(dec_digits(n)) == seq_val(dec_digits(n).drop_last()) * 10 + digit_val(
            dec_digits(n).last(),
        ));
        assert(seq_val(dec_digits(n).drop_last()) == 0);
        assert(seq_val(dec_digits(n)) == n);
    } else {
        lemma_dec_digits_val(n / 10);
        assert(dec_digits(n).drop_last() =~= dec_digits(n / 10));
        assert(dec_digits(n).last() == digit_char(n % 10));
        assert(digit_val(digit_char(n % 10)) == n % 10) by {
            assert(digit_char(n % 10) as u32 == 48 + n % 10);
        }
        assert(n / 10 * 10 + n % 10 == n);
        assert(seq_val(dec_digits(n)) == n);
    }
}

/// Peeling one digit off the front of a digit sequence.
proof fn lemma_seq_val_first(s: Seq<char>)
    requires
        s.len() >= 1,
    ensures
        seq_val(s) == digit_val(s[0]) * pow10((s.len() - 1) as nat) + seq_val(s.drop_first()),
    decreases s.len(),
{
    if s.len() == 1 {
        assert(s.drop_first() =~= Seq::<char>::empty());
        assert(s.drop_last() =~= Seq::<char>::empty());
        assert(pow10(0) == 1);
        assert(s.last() == s[0]);
        assert(seq_val(s) == digit_val(s[0]) * pow10(0) + seq_val(s.drop_first()));
    } else {
        lemma_seq_val_first(s.drop_last());
        assert(s.drop_last()[0] == s[0]);
        assert(s.drop_first().drop_last() =~= s.drop_last().drop_first());
        assert(s.drop_first().last() == s.last());
        let k = (s.len() - 2) as nat;
        assert(seq_val(s) == seq_val(s.drop_last()) * 10 + digit_val(s.last()));
        assert(seq_val(s.drop_last()) == digit_val(s[0]) * pow10(k) + seq_val(
            s.drop_last().drop_first(),
        ));
        assert((digit_val(s[0]) * pow10(k) + seq_val(s.drop_last().drop_first())) * 10 == digit_val(
            s[0],
        ) * (pow10(k) * 10) + seq_val(s.drop_last().drop_first()) * 10) by (nonlinear_arith);
        assert(pow10(k) * 10 == pow10((k + 1) as nat));
        assert(seq_val(s.drop_first()) == seq_val(s.drop_first().drop_last()) * 10 + digit_val(
            s.drop_first().last(),
        ));
    }
}

/// Running the accumulator over a digit block, then the rest.
proof fn lemma_parse_digits_append(a: Seq<char>, b: Seq<char>, acc: nat)
    requires
        forall|i: int| 0 <= i < a.len() ==> is_digit(#[trigger] a[i]),
        acc * pow10(a.len()) + seq_val(a) <= usize::MAX as nat,
        b.len() == 0 || !is_digit(b[0]),
    ensures
        parse_digits(a + b, acc) == Some((acc * pow10(a.len()) + seq_val(a), b)),
    decreases a.len(),
{
    let s = a + b;
    if a.len() == 0 {
        assert(s =~= b);
        assert(pow10(0) == 1);
        assert(acc * pow10(0) == acc) by (nonlinear_arith)
            requires
                pow10(0) == 1,
        ;
        assert(acc * pow10(0) + seq_val(a) == acc);
    } else {
        assert(s[0] == a[0]);
        assert(is_digit(s[0]));
        let acc2 = acc * 10 + digit_val(a[0]);
        let k = (a.len() - 1) as nat;
        lemma_seq_val_first(a);
        assert(seq_val(a) == digit_val(a[0]) * pow10(k) + seq_val(a.drop_first()));
        assert(acc * pow10(a.len()) == acc * 10 * pow10(k)) by {
            assert(pow10(a.len()) == 10 * pow10(k));
            assert(acc * (10 * pow10(k)) == acc * 10 * pow10(k)) by (nonlinear_arith);
        }
        assert((acc * 10 + digit_val(a[0])) * pow10(k) == acc * 10 * pow10(k) + digit_val(a[0])
            * pow10(k)) by (nonlinear_arith);
        assert(acc2 * pow10(k) == acc * 10 * pow10(k) + digit_val(a[0]) * pow10(k));
        assert(acc2 * pow10(k) + seq_val(a.drop_first()) == acc * pow10(a.len()) + seq_val(a));
        assert(acc2 <= acc2 * pow10(k) + seq_val(a.drop_first())) by {
            lemma_pow10_pos(k);
            assert(acc2 * 1 <= acc2 * pow10(k)) by (nonlinear_arith)
                requires
                    pow10(k) >= 1,
            ;
        }
        assert(s.drop_first() =~= a.drop_first() + b);
        assert forall|i: int| 0 <= i < a.drop_first().len() implies is_digit(
            #[trigger] a.drop_first()[i],
        ) by {
            assert(a.drop_first()[i] == a[i + 1]);
        }
        lemma_parse_digits_append(a.drop_first(), b, acc2);
    }
}

/// Reading back a printed number recovers it exactly.
pub proof fn lemma_parse_number_round(n: nat, rest: Seq<char>)
    requires
        n <= usize::MAX as nat,
        rest.len() == 0 || !is_digit(rest[0]),
    ensures
        parse_number(dec_digits(n) + rest) == Some((n, rest)),
{
    let s = dec_digits(n) + rest;
    lemma_dec_digits_all(n);
    lemma_dec_digits_val(n);
    assert(s[0] == dec_digits(n)[0]);
    lemma_parse_digits_append(dec_digits(n), rest, 0);
    assert(0 * pow10(dec_digits(n).len()) + seq_val(dec_digits(n)) == n);
}

// ---------- literal chunks ----------

/// Whether `p` is a prefix of `s`.
pub open spec fn starts_with(s: Seq<char>, p: Seq<char>) -> bool {
    s.len() >= p.len() && s.take(p.len() as int) == p
}

/// Consumes an expected literal chunk.
pub open spec fn parse_lit(s: Seq<char>, p: Seq<char>) -> Option<Seq<char>> {
    if starts_with(s, p) {
        Some(s.skip(p.len() as int))
    } else {
        None
    }
}

/// Reading back an emitted literal chunk.
pub proof fn lemma_parse_lit_round(p: Seq<char>, rest: Seq<char>)
    ensures
        parse_lit(p + rest, p) == Some(rest),
{
    assert((p + rest).take(p.len() as int) =~= p);
    assert((p + rest).skip(p.len() as int) =~= rest);
}

// ---------- the document shape ----------

/// One item as an indented object with its five fields in fixed order.
pub open spec fn print_item(it: ItemModel) -> Seq<char> {
    "        {\n          \"id\": "@ + print_string(it.id) + ",\n          \"title\": "@
        + print_string(it.title) + ",\n          \"comment\": "@ + print_string(it.comment)
        + ",\n          \"order\": "@ + dec_digits(it.order) + ",\n          \"created_at\": "@
        + print_string(it.created_at) + "\n        }"@
}

/// A non-empty item list, elements separated by a comma and a line break.
pub open spec fn print_items_list(its: Seq<ItemModel>) -> Seq<char>
    decreases its.len(),
{
    if its.len() <= 1 {
        print_item(its[0])
    } else {
        print_item(its[0]) + ",\n"@ + print_items_list(its.drop_first())
    }
}

/// The tail of an item array, the opening bracket having been emitted by
/// the surrounding object.
pub open spec fn print_items(its: Seq<ItemModel>) -> Seq<char> {
    if its.len() == 0 {
        "]"@
    } else {
        "\n"@ + print_items_list(its) + "\n      ]"@
    }
}

/// One category as an indented object: its name and its item array.
pub open spec fn print_cat(c: CategoryModel) -> Seq<char> {
    "    {\n      \"name\": "@ + print_string(c.name) + ",\n      \"items\": ["@ + print_items(
        c.items,
    ) + "\n    }"@
}

/// A non-empty category list.
pub open spec fn print_cats_list(cs: Seq<CategoryModel>) -> Seq<char>
    decreases cs.len(),
{
    if cs.len() <= 1 {
        print_cat(cs[0])
    } else {
        print_cat(cs[0]) + ",\n"@ + print_cats_list(cs.drop_first())
    }
}

/// The tail of the category array.
pub open spec fn print_cats(cs: Seq<CategoryModel>) -> Seq<char> {
    if cs.len() == 0 {
        "]"@
    } else {
        "\n"@ + print_cats_list(cs) + "\n  ]"@
    }
}

/// The whole persisted document, pretty-printed.
pub open spec fn print_doc(d: DocumentModel) -> Seq<char> {
    "{\n  \"categories\": ["@ + print_cats(d.categories) + "\n}"@
}

/// Reads one item object.
pub open spec fn parse_item(s: Seq<char>) -> Option<(ItemModel, Seq<char>)> {
    match parse_lit(s, "        {\n          \"id\": "@) {
        None => None,
        Some(r1) => match parse_string(r1) {
            None => None,
            Some((id, r2)) => match parse_lit(r2, ",\n          \"title\": "@) {
                None => None,
                Some(r3) => match parse_string(r3) {
                    None => None,
                    Some((title, r4)) => match parse_lit(r4, ",\n          \"comment\": "@) {
                        None => None,
                        Some(r5) => match parse_string(r5) {
                            None => None,
                            Some((comment, r6)) => match parse_lit(
                                r6,
                                ",\n          \"order\": "@,
                            ) {
                                None => None,
                                Some(r7) => match parse_number(r7) {
                                    None => None,
                                    Some((order, r8)) => match parse_lit(
                                        r8,
                                        ",\n          \"created_at\": "@,
                                    ) {
                                        None => None,
                                        Some(r9) => match parse_string(r9) {
                                            None => None,
                                            Some((created_at, r10)) => match parse_lit(
                                                r10,
                                                "\n        }"@,
                                            ) {
                                                None => None,
                                                Some(r11) => Some(
                                                    (
                                                        ItemModel {
                                                            id,
                                                            title,
                                                            comment,
                                                            order,
                                                            created_at,
                                                        },
                                                        r11,
                                                    ),
                                                ),
                                            },
                                        },
                                    },
                                },
                            },
                        },
                    },
                },
            },
        },
    }
}

/// Reads the items of a non-empty item array, up to and including the
/// closing bracket.
pub open spec fn parse_items_list(s: Seq<char>) -> Option<(Seq<ItemModel>, Seq<char>)>
    decreases s.len(),
{
    match parse_item(s) {
        None => None,
        Some((it, r)) => if r.len() >= s.len() {
            None
        } else {
            match parse_lit(r, ",\n"@) {
                Some(r2) => match parse_items_list(r2) {
                    None => None,
                    Some((rest_items, r3)) => Some((seq![it] + rest_items, r3)),
                },
                None => match parse_lit(r, "\n      ]"@) {
                    None => None,
                    Some(r2) => Some((seq![it], r2)),
                },
            }
        },
    }
}

/// Reads an item array tail: either an immediate closing bracket or a
/// line-broken list.
pub open spec fn parse_items(s: Seq<char>) -> Option<(Seq<ItemModel>, Seq<char>)> {
    if s.len() == 0 {
        None
    } else if s[0] == ']' {
        Some((Seq::empty(), s.drop_first()))
    } else {
        match parse_lit(s, "\n"@) {
            None => None,
            Some(r) => parse_items_list(r),
        }
    }
}

/// Reads one category object.
pub open spec fn parse_cat(s: Seq<char>) -> Option<(CategoryModel, Seq<char>)> {
    match parse_lit(s, "    {\n      \"name\": "@) {
        None => None,
        Some(r1) => match parse_string(r1) {
            None => None,
            Some((name, r2)) => match parse_lit(r2, ",\n      \"items\": ["@) {
                None => None,
                Some(r3) => match parse_items(r3) {
                    None => None,
                    Some((items, r4)) => match parse_lit(r4, "\n    }"@) {
                        None => None,
                        Some(r5) => Some((CategoryModel { name, items }, r5)),
                    },
                },
            },
        },
    }
}

/// Reads the categories of a non-empty category array, up to and including
/// the closing bracket.
pub open spec fn parse_cats_list(s: Seq<char>) -> Option<(Seq<CategoryModel>, Seq<char>)>
    decreases s.len(),
{
    match parse_cat(s) {
        None => None,
        Some((c, r)) => if r.len() >= s.len() {
            None
        } else {
            match parse_lit(r, ",\n"@) {
                Some(r2) => match parse_cats_list(r2) {
                    None => None,
                    Some((rest_cats, r3)) => Some((seq![c] + rest_cats, r3)),
                },
                None => match parse_lit(r, "\n  ]"@) {
                    None => None,
                    Some(r2) => Some((seq![c], r2)),
                },
            }
        },
    }
}

/// Reads the category array tail.
pub open spec fn parse_cats(s: Seq<char>) -> Option<(Seq<CategoryModel>, Seq<char>)> {
    if s.len() == 0 {
        None
    } else if s[0] == ']' {
        Some((Seq::empty(), s.drop_first()))
    } else {
        match parse_lit(s, "\n"@) {
            None => None,
            Some(r) => parse_cats_list(r),
        }
    }
}

/// Every rank small enough to print and read back as a `usize`.
pub open spec fn items_bounded(items: Seq<ItemModel>) -> bool {
    forall|j: int| 0 <= j < items.len() ==> (#[trigger] items[j].order) <= usize::MAX as nat
}

/// Every rank of every category bounded.
pub open spec fn cats_bounded(cs: Seq<CategoryModel>) -> bool {
    forall|i: int| 0 <= i < cs.len() ==> items_bounded(#[trigger] cs[i].items)
}

/// The whole document bounded.
pub open spec fn doc_bounded(d: DocumentModel) -> bool {
    cats_bounded(d.categories)
}

/// Reads a whole document; the text must end with it.
pub open spec fn parse_doc(s: Seq<char>) -> Option<DocumentModel> {
    match parse_lit(s, "{\n  \"categories\": ["@) {
        None => None,
        Some(r1) => match parse_cats(r1) {
            None => None,
            Some((categories, r2)) => match parse_lit(r2, "\n}"@) {
                None => None,
                Some(r3) => if r3.len() == 0 {
                    Some(DocumentModel { categories })
                } else {
                    None
                },
            },
        },
    }
}


/// Reading back a printed item recovers it exactly.
pub proof fn lemma_parse_item_round(it: ItemModel, rest: Seq<char>)
    requires
        it.order <= usize::MAX as nat,
    ensures
        parse_item(print_item(it) + rest) == Some((it, rest)),
{
    let lit1 = "        {\n          \"id\": "@;
    let lit2 = ",\n          \"title\": "@;
    let lit3 = ",\n          \"comment\": "@;
    let lit4 = ",\n          \"order\": "@;
    let lit5 = ",\n          \"created_at\": "@;
    let lit6 = "\n        }"@;
    let s9 = print_string(it.created_at) + (lit6 + rest);
    let s8 = lit5 + s9;
    let s7 = dec_digits(it.order) + s8;
    let s6 = lit4 + s7;
    let s5 = print_string(it.comment) + s6;
    let s4 = lit3 + s5;
    let s3 = print_string(it.title) + s4;
    let s2 = lit2 + s3;
    let s1 = print_string(it.id) + s2;
    let s0 = lit1 + s1;
    assert(print_item(it) + rest =~= s0);
    lemma_parse_lit_round(lit1, s1);
    lemma_parse_string_round(it.id, s2);
    lemma_parse_lit_round(lit2, s3);
    lemma_parse_string_round(it.title, s4);
    lemma_parse_lit_round(lit3, s5);
    lemma_parse_string_round(it.comment, s6);
    lemma_parse_lit_round(lit4, s7);
    reveal_strlit(",\n          \"created_at\": ");
    assert(s8[0] == lit5[0]);
    assert(!is_digit(s8[0]));
    lemma_parse_number_round(it.order, s8);
    lemma_parse_lit_round(lit5, s9);
    lemma_parse_string_round(it.created_at, lit6 + rest);
    lemma_parse_lit_round(lit6, rest);
    assert(ItemModel {
        id: it.id,
        title: it.title,
        comment: it.comment,
        order: it.order,
        created_at: it.created_at,
    } =~= it);
}

/// A printed item is never empty text.
proof fn lemma_print_item_len(it: ItemModel)
    ensures
        print_item(it).len() > 0,
{
    reveal_strlit("        {\n          \"id\": ");
    assert("        {\n          \"id\": "@.len() > 0);
}

/// Reading back a printed non-empty item list, up to its closing bracket.
#[verifier::rlimit(60)]
proof fn lemma_parse_items_list_round(its: Seq<ItemModel>, rest: Seq<char>)
    requires
        its.len() >= 1,
        items_bounded(its),
    ensures
        parse_items_list(print_items_list(its) + "\n      ]"@ + rest) == Some((its, rest)),
    decreases its.len(),
{
    let endlit = "\n      ]"@;
    let seplit = ",\n"@;
    reveal_strlit("\n      ]");
    reveal_strlit(",\n");
    let s = print_items_list(its) + endlit + rest;
    lemma_print_item_len(its[0]);
    if its.len() == 1 {
        let r = endlit + rest;
        assert(s =~= print_item(its[0]) + r);
        lemma_parse_item_round(its[0], r);
        assert(r.len() < s.len());
        assert(r[0] == '\n');
        assert(parse_lit(r, seplit) is None) by {
            if starts_with(r, seplit) {
                assert(r.take(2)[0] == r[0]);
                assert(seplit[0] == ',');
            }
        }
        lemma_parse_lit_round(endlit, rest);
        assert(seq![its[0]] =~= its);
    } else {
        let tail = print_items_list(its.drop_first()) + endlit + rest;
        let r = seplit + tail;
        assert(s =~= print_item(its[0]) + r);
        lemma_parse_item_round(its[0], r);
        assert(r.len() < s.len());
        lemma_parse_lit_round(seplit, tail);
        assert(items_bounded(its.drop_first())) by {
            assert forall|j: int| 0 <= j < its.drop_first().len() implies (
            #[trigger] its.drop_first()[j].order) <= usize::MAX as nat by {
                assert(its.drop_first()[j] == its[j + 1]);
            }
        }
        lemma_parse_items_list_round(its.drop_first(), rest);
        assert(tail =~= print_items_list(its.drop_first()) + endlit + rest);
        assert(seq![its[0]] + its.drop_first() =~= its);
    }
}

/// Reading back a printed item array tail.
proof fn lemma_parse_items_round(its: Seq<ItemModel>, rest: Seq<char>)
    requires
        items_bounded(its),
    ensures
        parse_items(print_items(its) + rest) == Some((its, rest)),
{
    reveal_strlit("]");
    reveal_strlit("\n");
    reveal_strlit("\n      ]");
    let s = print_items(its) + rest;
    if its.len() == 0 {
        assert(s[0] == ']');
        assert(s.drop_first() =~= rest);
        assert(Seq::<ItemModel>::empty() =~= its);
    } else {
        let tail = print_items_list(its) + "\n      ]"@ + rest;
        assert(s =~= "\n"@ + tail);
        assert(s[0] == '\n');
        assert(s[0] != ']');
        lemma_parse_lit_round("\n"@, tail);
        lemma_parse_items_list_round(its, rest);
    }
}

/// Reading back a printed category recovers it exactly.
proof fn lemma_parse_cat_round(c: CategoryModel, rest: Seq<char>)
    requires
        items_bounded(c.items),
    ensures
        parse_cat(print_cat(c) + rest) == Some((c, rest)),
{
    let litA = "    {\n      \"name\": "@;
    let litB = ",\n      \"items\": ["@;
    let litC = "\n    }"@;
    let s3 = print_items(c.items) + (litC + rest);
    let s2 = litB + s3;
    let s1 = print_string(c.name) + s2;
    let s0 = litA + s1;
    assert(print_cat(c) + rest =~= s0);
    lemma_parse_lit_round(litA, s1);
    lemma_parse_string_round(c.name, s2);
    lemma_parse_lit_round(litB, s3);
    lemma_parse_items_round(c.items, litC + rest);
    lemma_parse_lit_round(litC, rest);
    assert(CategoryModel { name: c.name, items: c.items } =~= c);
}

/// A printed category is never empty text.
proof fn lemma_print_cat_len(c: CategoryModel)
    ensures
        print_cat(c).len() > 0,
{
    reveal_strlit("    {\n      \"name\": ");
    assert("    {\n      \"name\": "@.len() > 0);
}

/// Reading back a printed non-empty category list.
#[verifier::rlimit(60)]
proof fn lemma_parse_cats_list_round(cs: Seq<CategoryModel>, rest: Seq<char>)
    requires
        cs.len() >= 1,
        cats_bounded(cs),
    ensures
        parse_cats_list(print_cats_list(cs) + "\n  ]"@ + rest) == Some((cs, rest)),
    decreases cs.len(),
{
    let endlit = "\n  ]"@;
    let seplit = ",\n"@;
    reveal_strlit("\n  ]");
    reveal_strlit(",\n");
    let s = print_cats_list(cs) + endlit + rest;
    lemma_print_cat_len(cs[0]);
    if cs.len() == 1 {
        let r = endlit + rest;
        assert(s =~= print_cat(cs[0]) + r);
        lemma_parse_cat_round(cs[0], r);
        assert(r.len() < s.len());
        assert(r[0] == '\n');
        assert(parse_lit(r, seplit) is None) by {
            if starts_with(r, seplit) {
                assert(r.take(2)[0] == r[0]);
                assert(seplit[0] == ',');
            }
        }
        lemma_parse_lit_round(endlit, rest);
        assert(seq![cs[0]] =~= cs);
    } else {
        let tail = print_cats_list(cs.drop_first()) + endlit + rest;
        let r = seplit + tail;
        assert(s =~= print_cat(cs[0]) + r);
        lemma_parse_cat_round(cs[0], r);
        assert(r.len() < s.len());
        lemma_parse_lit_round(seplit, tail);
        assert(cats_bounded(cs.drop_first())) by {
            assert forall|j: int| 0 <= j < cs.drop_first().len() implies items_bounded(
                #[trigger] cs.drop_first()[j].items,
            ) by {
                assert(cs.drop_first()[j] == cs[j + 1]);
            }
        }
        lemma_parse_cats_list_round(cs.drop_first(), rest);
        assert(tail =~= print_cats_list(cs.drop_first()) + endlit + rest);
        assert(seq![cs[0]] + cs.drop_first() =~= cs);
    }
}

/// Reading back a printed category array tail.
proof fn lemma_parse_cats_round(cs: Seq<CategoryModel>, rest: Seq<char>)
    requires
        cats_bounded(cs),
    ensures
        parse_cats(print_cats(cs) + rest) == Some((cs, rest)),
{
    reveal_strlit("]");
    reveal_strlit("\n");
    reveal_strlit("\n  ]");
    let s = print_cats(cs) + rest;
    if cs.len() == 0 {
        assert(s[0] == ']');
        assert(s.drop_first() =~= rest);
        assert(Seq::<CategoryModel>::empty() =~= cs);
    } else {
        let tail = print_cats_list(cs) + "\n  ]"@ + rest;
        assert(s =~= "\n"@ + tail);
        assert(s[0] == '\n');
        assert(s[0] != ']');
        lemma_parse_lit_round("\n"@, tail);
        lemma_parse_cats_list_round(cs, rest);
    }
}

/// Round trip: the printed document reads back as itself. Together with the
/// printer's and parser's exec contracts this says that saving and loading
/// return the same document.
pub proof fn lemma_doc_round_trip(d: DocumentModel)
    requires
        doc_bounded(d),
    ensures
        parse_doc(print_doc(d)) == Some(d),
{
    let litO = "{\n  \"categories\": ["@;
    let litC = "\n}"@;
    let s1 = print_cats(d.categories) + litC;
    assert(print_doc(d) =~= litO + s1);
    lemma_parse_lit_round(litO, s1);
    lemma_parse_cats_round(d.categories, litC);
    assert(litC =~= litC + Seq::<char>::empty());
    lemma_parse_lit_round(litC, Seq::<char>::empty());
    assert(DocumentModel { categories: d.categories } =~= d);
}


// ---------- the printer, executable ----------

/// Appends the escaped body of `s`.
fn write_escaped(out: &mut String, s: &str)
    ensures
        final(out)@ == old(out)@ + escape(s@),
{
    let n = s.unicode_len();
    let mut i: usize = 0;
    proof {
        assert(out@ =~= old(out)@ + escape(s@.take(0)));
    }
    while i < n
        invariant
            n == s@.len(),
            i <= n,
            out@ == old(out)@ + escape(s@.take(i as int)),
        decreases n - i,
    {
        let ghost pre = out@;
        let c = s.get_char(i);
        if c == '"' {
            out.append("\\\"");
            proof {
                reveal_strlit("\\\"");
                assert("\\\""@ =~= escape_char(c));
                assert(out@ =~= pre + escape_char(c));
            }
        } else if c == '\\' {
            out.append("\\\\");
            proof {
                reveal_strlit("\\\\");
                assert("\\\\"@ =~= escape_char(c));
                assert(out@ =~= pre + escape_char(c));
            }
        } else if c == '\n' {
            out.append("\\n");
            proof {
                reveal_strlit("\\n");
                assert("\\n"@ =~= escape_char(c));
                assert(out@ =~= pre + escape_char(c));
            }
        } else if c == '\r' {
            out.append("\\r");
            proof {
                reveal_strlit("\\r");
                assert("\\r"@ =~= escape_char(c));
                assert(out@ =~= pre + escape_char(c));
            }
        } else if c == '\t' {
            out.append("\\t");
            proof {
                reveal_strlit("\\t");
                assert("\\t"@ =~= escape_char(c));
                assert(out@ =~= pre + escape_char(c));
            }
        } else {
            crate::ext::push_char(out, c);
            proof {
                assert(out@ =~= pre + escape_char(c));
            }
        }
        proof {
            assert(out@ =~= pre + escape_char(c));
            lemma_escape_append(s@.take(i as int), seq![c]);
            assert(s@.take(i + 1) =~= s@.take(i as int) + seq![c]);
            assert(seq![c].len() == 1);
            assert(seq![c][0] == c);
            assert(seq![c].drop_first() =~= Seq::<char>::empty());
            assert(escape(seq![c].drop_first()) =~= Seq::<char>::empty());
            assert(escape(seq![c]) =~= escape_char(c));
            assert(out@ =~= old(out)@ + escape(s@.take(i + 1)));
        }
        i += 1;
    }
    proof {
        assert(s@.take(n as int) =~= s@);
    }
}

/// Appends `s` as a quoted, escaped token.
fn write_string_token(out: &mut String, s: &str)
    ensures
        final(out)@ == old(out)@ + print_string(s@),
{
    out.append("\"");
    write_escaped(out, s);
    out.append("\"");
    proof {
        reveal_strlit("\"");
        assert("\""@ =~= seq!['"']);
        assert(out@ =~= old(out)@ + print_string(s@));
    }
}

/// Appends `n` in decimal.
fn write_usize(out: &mut String, n: usize)
    ensures
        final(out)@ == old(out)@ + dec_digits(n as nat),
{
    let mut tmp: Vec<char> = Vec::new();
    let d0 = ((48u8 + (n % 10) as u8)) as char;
    proof {
        assert(d0 == digit_char((n % 10) as nat));
    }
    tmp.push(d0);
    let ghost mut r: Seq<char> = seq![d0];
    let mut m = n / 10;
    proof {
        assert(tmp@ =~= seq![d0]);
        if m == 0 {
            assert(n < 10);
            assert(dec_digits(n as nat) =~= r);
        } else {
            assert(dec_digits(n as nat) =~= dec_digits(m as nat) + r);
        }
    }
    while m != 0
        invariant
            tmp@.len() == r.len(),
            forall|k: int| 0 <= k < r.len() ==> r[k] == tmp@[r.len() - 1 - k],
            m == 0 ==> dec_digits(n as nat) == r,
            m != 0 ==> dec_digits(n as nat) == dec_digits(m as nat) + r,
        decreases m,
    {
        let ghost rpre = r;
        let d = ((48u8 + (m % 10) as u8)) as char;
        proof {
            assert(d == digit_char((m % 10) as nat));
        }
        tmp.push(d);
        proof {
            r = seq![d] + r;
        }
        let m2 = m / 10;
        proof {
            if m2 == 0 {
                assert(m < 10);
                assert(dec_digits(m as nat) =~= seq![d]);
                assert(dec_digits(m as nat) + rpre =~= r);
            } else {
                assert(dec_digits(m as nat) =~= dec_digits(m2 as nat) + seq![d]);
                assert((dec_digits(m2 as nat) + seq![d]) + rpre =~= dec_digits(m2 as nat) + r);
            }
            assert forall|k: int| 0 <= k < r.len() implies r[k] == tmp@[r.len() - 1 - k] by {
                if k == 0 {
                    assert(r[0] == d);
                } else {
                    assert(r[k] == rpre[k - 1]);
                }
            }
        }
        m = m2;
    }
    let len = tmp.len();
    let mut k: usize = 0;
    proof {
        assert(out@ =~= old(out)@ + r.take(0));
    }
    while k < len
        invariant
            len == tmp@.len(),
            len == r.len(),
            k <= len,
            forall|j: int| 0 <= j < r.len() ==> r[j] == tmp@[r.len() - 1 - j],
            dec_digits(n as nat) == r,
            out@ == old(out)@ + r.take(k as int),
        decreases len - k,
    {
        let ghost pre = out@;
        let c = tmp[len - 1 - k];
        crate::ext::push_char(out, c);
        proof {
            assert(c == r[k as int]);
            assert(r.take(k + 1) =~= r.take(k as int).push(c));
            assert(out@ =~= old(out)@ + r.take(k + 1));
        }
        k += 1;
    }
    proof {
        assert(r.take(len as int) =~= r);
    }
}

/// Appends one item object.
#[verifier::rlimit(60)]
fn write_item(out: &mut String, it: &Item)
    ensures
        final(out)@ == old(out)@ + print_item(it@),
{
    out.append("        {\n          \"id\": ");
    write_string_token(out, it.id.as_str());
    out.append(",\n          \"title\": ");
    write_string_token(out, it.title.as_str());
    out.append(",\n          \"comment\": ");
    write_string_token(out, it.comment.as_str());
    out.append(",\n          \"order\": ");
    write_usize(out, it.order);
    out.append(",\n          \"created_at\": ");
    write_string_token(out, it.created_at.as_str());
    out.append("\n        }");
    proof {
        assert(out@ =~= old(out)@ + print_item(it@));
    }
}

/// Appends one category object, with its item array.
fn write_cat(out: &mut String, c: &Category)
    ensures
        final(out)@ == old(out)@ + print_cat(c@),
{
    out.append("    {\n      \"name\": ");
    write_string_token(out, c.name.as_str());
    out.append(",\n      \"items\": [");
    let n = c.items.len();
    if n == 0 {
        out.append("]");
        out.append("\n    }");
        proof {
            assert(c@.items.len() == 0);
            assert(print_items(c@.items) == "]"@);
            assert(out@ =~= old(out)@ + print_cat(c@));
        }
    } else {
        out.append("\n");
        let ghost base = out@;
        let mut i: usize = 0;
        proof {
            assert(c@.items.skip(0) =~= c@.items);
        }
        while i < n
            invariant
                n == c.items.len(),
                n >= 1,
                i <= n,
                i < n ==> base + print_items_list(c@.items) == out@ + print_items_list(
                    c@.items.skip(i as int),
                ),
                i == n ==> out@ == base + print_items_list(c@.items),
            decreases n - i,
        {
            let ghost pre = out@;
            write_item(out, &c.items[i]);
            if i + 1 < n {
                out.append(",\n");
            }
            proof {
                let tail = c@.items.skip(i as int);
                assert(tail[0] == c@.items[i as int]);
                if i + 1 < n {
                    assert(tail.drop_first() =~= c@.items.skip(i + 1));
                    assert(tail.len() > 1);
                    assert(print_items_list(tail) =~= print_item(tail[0]) + ",\n"@
                        + print_items_list(c@.items.skip(i + 1)));
                    assert(out@ =~= pre + print_item(c@.items[i as int]) + ",\n"@);
                    assert(base + print_items_list(c@.items) =~= out@ + print_items_list(
                        c@.items.skip(i + 1),
                    ));
                } else {
                    assert(tail.len() == 1);
                    assert(print_items_list(tail) =~= print_item(tail[0]));
                    assert(out@ =~= base + print_items_list(c@.items));
                }
            }
            i += 1;
        }
        out.append("\n      ]");
        out.append("\n    }");
        proof {
            assert(c@.items.len() >= 1);
            assert(print_items(c@.items) == "\n"@ + print_items_list(c@.items) + "\n      ]"@);
            assert(out@ =~= old(out)@ + print_cat(c@));
        }
    }
}

/// Renders the whole document in its canonical pretty-printed shape: what
/// the shell writes to disk after every mutation.
pub fn encode_document(doc: &Document) -> (r: String)
    ensures
        r@ == print_doc(doc@),
{
    let mut out = String::new();
    out.append("{\n  \"categories\": [");
    let n = doc.categories.len();
    if n == 0 {
        out.append("]");
    } else {
        out.append("\n");
        let ghost base = out@;
        let mut i: usize = 0;
        proof {
            assert(doc@.categories.skip(0) =~= doc@.categories);
        }
        while i < n
            invariant
                n == doc.categories.len(),
                n >= 1,
                i <= n,
                i < n ==> base + print_cats_list(doc@.categories) == out@ + print_cats_list(
                    doc@.categories.skip(i as int),
                ),
                i == n ==> out@ == base + print_cats_list(doc@.categories),
            decreases n - i,
        {
            let ghost pre = out@;
            write_cat(&mut out, &doc.categories[i]);
            if i + 1 < n {
                out.append(",\n");
            }
            proof {
                let tail = doc@.categories.skip(i as int);
                assert(tail[0] == doc@.categories[i as int]);
                if i + 1 < n {
                    assert(tail.drop_first() =~= doc@.categories.skip(i + 1));
                    assert(tail.len() > 1);
                    assert(print_cats_list(tail) =~= print_cat(tail[0]) + ",\n"@
                        + print_cats_list(doc@.categories.skip(i + 1)));
                    assert(out@ =~= pre + print_cat(doc@.categories[i as int]) + ",\n"@);
                    assert(base + print_cats_list(doc@.categories) =~= out@ + print_cats_list(
                        doc@.categories.skip(i + 1),
                    ));
                } else {
                    assert(tail.len() == 1);
                    assert(print_cats_list(tail) =~= print_cat(tail[0]));
                    assert(out@ =~= base + print_cats_list(doc@.categories));
                }
            }
            i += 1;
        }
        out.append("\n  ]");
    }
    out.append("\n}");
    proof {
        if doc@.categories.len() == 0 {
            assert(print_cats(doc@.categories) == "]"@);
        } else {
            assert(print_cats(doc@.categories) == "\n"@ + print_cats_list(doc@.categories)
                + "\n  ]"@);
        }
        assert(out@ =~= print_doc(doc@));
    }
    out
}


// ---------- the parser, executable ----------

/// A successful string-body parse consumes at least the closing quote.
proof fn lemma_parse_string_body_consumes(s: Seq<char>)
    ensures
        parse_string_body(s) is Some ==> parse_string_body(s).unwrap().1.len() < s.len(),
    decreases s.len(),
{
    if s.len() > 0 && s[0] != '"' {
        if s[0] == '\\' {
            if s.len() >= 2 {
                lemma_parse_string_body_consumes(s.skip(2));
            }
        } else {
            lemma_parse_string_body_consumes(s.drop_first());
        }
    }
}

/// Digit accumulation never hands back more than it was given.
proof fn lemma_parse_digits_consumes(s: Seq<char>, acc: nat)
    ensures
        parse_digits(s, acc) is Some ==> parse_digits(s, acc).unwrap().1.len() <= s.len(),
    decreases s.len(),
{
    if s.len() > 0 && is_digit(s[0]) && acc * 10 + digit_val(s[0]) <= usize::MAX as nat {
        lemma_parse_digits_consumes(s.drop_first(), acc * 10 + digit_val(s[0]));
    }
}

/// A successful item parse consumes at least its opening literal.
proof fn lemma_parse_item_consumes(s: Seq<char>)
    ensures
        parse_item(s) is Some ==> parse_item(s).unwrap().1.len() < s.len(),
{
    reveal_strlit("        {\n          \"id\": ");
    if parse_lit(s, "        {\n          \"id\": "@) is Some {
        let r1 = parse_lit(s, "        {\n          \"id\": "@).unwrap();
        assert(r1.len() < s.len());
        if parse_string(r1) is Some {
            lemma_parse_string_body_consumes(r1.drop_first());
            let (id, r2) = parse_string(r1).unwrap();
            assert(r2.len() < r1.len());
            if parse_lit(r2, ",\n          \"title\": "@) is Some {
                let r3 = parse_lit(r2, ",\n          \"title\": "@).unwrap();
                if parse_string(r3) is Some {
                    lemma_parse_string_body_consumes(r3.drop_first());
                    let (t, r4) = parse_string(r3).unwrap();
                    if parse_lit(r4, ",\n          \"comment\": "@) is Some {
                        let r5 = parse_lit(r4, ",\n          \"comment\": "@).unwrap();
                        if parse_string(r5) is Some {
                            lemma_parse_string_body_consumes(r5.drop_first());
                            let (cm, r6) = parse_string(r5).unwrap();
                            if parse_lit(r6, ",\n          \"order\": "@) is Some {
                                let r7 = parse_lit(r6, ",\n          \"order\": "@).unwrap();
                                if parse_number(r7) is Some {
                                    lemma_parse_digits_consumes(r7, 0);
                                    let (o, r8) = parse_number(r7).unwrap();
                                    if parse_lit(r8, ",\n          \"created_at\": "@) is Some {
                                        let r9 = parse_lit(
                                            r8,
                                            ",\n          \"created_at\": "@,
                                        ).unwrap();
                                        if parse_string(r9) is Some {
                                            lemma_parse_string_body_consumes(r9.drop_first());
                                            let (ca, r10) = parse_string(r9).unwrap();
                                            if parse_lit(r10, "\n        }"@) is Some {
                                                let r11 = parse_lit(r10, "\n        }"@).unwrap();
                                                assert(r11.len() < s.len());
                                            }
                                        }
                                    }
                                }
                            }
                        }
                    }
                }
            }
        }
    }
}

/// A successful category parse consumes at least its opening literal.
proof fn lemma_parse_cat_consumes(s: Seq<char>)
    ensures
        parse_cat(s) is Some ==> parse_cat(s).unwrap().1.len() < s.len(),
{
    reveal_strlit("    {\n      \"name\": ");
    if parse_lit(s, "    {\n      \"name\": "@) is Some {
        let r1 = parse_lit(s, "    {\n      \"name\": "@).unwrap();
        assert(r1.len() < s.len());
        if parse_string(r1) is Some {
            lemma_parse_string_body_consumes(r1.drop_first());
            let (nm, r2) = parse_string(r1).unwrap();
            if parse_lit(r2, ",\n      \"items\": ["@) is Some {
                let r3 = parse_lit(r2, ",\n      \"items\": ["@).unwrap();
                if parse_items(r3) is Some {
                    lemma_parse_items_consumes(r3);
                    let (its, r4) = parse_items(r3).unwrap();
                    if parse_lit(r4, "\n    }"@) is Some {
                        let r5 = parse_lit(r4, "\n    }"@).unwrap();
                        assert(r5.len() < s.len());
                    }
                }
            }
        }
    }
}

/// A successful item-list parse hands back strictly less text.
proof fn lemma_parse_items_list_consumes(s: Seq<char>)
    ensures
        parse_items_list(s) is Some ==> parse_items_list(s).unwrap().1.len() < s.len(),
    decreases s.len(),
{
    if parse_item(s) is Some {
        let (it, r) = parse_item(s).unwrap();
        if r.len() < s.len() {
            if parse_lit(r, ",\n"@) is Some {
                let r2 = parse_lit(r, ",\n"@).unwrap();
                lemma_parse_items_list_consumes(r2);
            }
        }
    }
}

/// A successful item-array parse hands back strictly less text.
proof fn lemma_parse_items_consumes(s: Seq<char>)
    ensures
        parse_items(s) is Some ==> parse_items(s).unwrap().1.len() < s.len(),
{
    if s.len() > 0 && s[0] != ']' {
        if parse_lit(s, "\n"@) is Some {
            let r = parse_lit(s, "\n"@).unwrap();
            reveal_strlit("\n");
            lemma_parse_items_list_consumes(r);
        }
    }
}

/// Consumes `lit` at `pos` if the text carries it there.
fn expect_lit(s: &str, pos: usize, lit: &str) -> (r: Option<usize>)
    requires
        pos <= s@.len(),
    ensures
        match parse_lit(s@.skip(pos as int), lit@) {
            None => r is None,
            Some(rest) => r is Some && r.unwrap() <= s@.len() && s@.skip(r.unwrap() as int)
                == rest && r.unwrap() == pos + lit@.len(),
        },
{
    let n = s.unicode_len();
    let m = lit.unicode_len();
    let ghost suf = s@.skip(pos as int);
    if m > n - pos {
        proof {
            assert(suf.len() < lit@.len());
            assert(!starts_with(suf, lit@));
        }
        return None;
    }
    let mut j: usize = 0;
    while j < m
        invariant
            n == s@.len(),
            m == lit@.len(),
            pos <= n,
            m <= n - pos,
            j <= m,
            suf == s@.skip(pos as int),
            forall|k: int| 0 <= k < j ==> suf[k] == lit@[k],
        decreases m - j,
    {
        let cs = s.get_char(pos + j);
        let cl = lit.get_char(j);
        proof {
            assert(suf[j as int] == s@[pos + j]);
        }
        if cs != cl {
            proof {
                if starts_with(suf, lit@) {
                    assert(suf.take(m as int)[j as int] == suf[j as int]);
                }
            }
            return None;
        }
        j += 1;
    }
    proof {
        assert(suf.take(m as int) =~= lit@);
        assert(suf.skip(m as int) =~= s@.skip(pos + m));
    }
    Some(pos + m)
}

/// Reads a quoted token at `pos`.
#[verifier::loop_isolation(false)]
fn parse_string_at(s: &str, pos: usize) -> (r: Option<(String, usize)>)
    requires
        pos <= s@.len(),
    ensures
        match parse_string(s@.skip(pos as int)) {
            None => r is None,
            Some((t, rest)) => r is Some && r.unwrap().0@ == t && r.unwrap().1 <= s@.len()
                && s@.skip(r.unwrap().1 as int) == rest,
        },
{
    let n = s.unicode_len();
    let ghost suf = s@.skip(pos as int);
    if pos >= n {
        proof {
            assert(suf.len() == 0);
        }
        return None;
    }
    proof {
        assert(suf[0] == s@[pos as int]);
    }
    if s.get_char(pos) != '"' {
        return None;
    }
    let ghost body0 = s@.skip(pos + 1);
    proof {
        assert(suf.drop_first() =~= body0);
    }
    let mut out = String::new();
    let mut cur: usize = pos + 1;
    proof {
        assert(out@ + Seq::<char>::empty() =~= out@);
    }
    loop
        invariant
            n == s@.len(),
            pos + 1 <= cur <= n,
            body0 == s@.skip(pos + 1),
            match parse_string_body(s@.skip(cur as int)) {
                None => parse_string_body(body0) is None,
                Some((t, rest)) => parse_string_body(body0) == Some((out@ + t, rest)),
            },
        decreases n - cur,
    {
        let ghost here = s@.skip(cur as int);
        if cur >= n {
            proof {
                assert(here.len() == 0);
            }
            return None;
        }
        proof {
            assert(here[0] == s@[cur as int]);
            assert(here.drop_first() =~= s@.skip(cur + 1));
        }
        let c = s.get_char(cur);
        if c == '"' {
            proof {
                assert(parse_string_body(here) == Some(
                    (Seq::<char>::empty(), s@.skip(cur + 1)),
                ));
                assert(out@ + Seq::<char>::empty() =~= out@);
            }
            return Some((out, cur + 1));
        }
        if c == '\\' {
            if cur + 1 >= n {
                proof {
                    assert(here.len() < 2);
                }
                return None;
            }
            proof {
                assert(here.len() >= 2);
                assert(here[1] == s@[cur + 1]);
                assert(here.skip(2) =~= s@.skip(cur + 2));
            }
            let e = s.get_char(cur + 1);
            if e == '"' || e == '\\' || e == 'n' || e == 'r' || e == 't' {
                let u = if e == 'n' {
                    '\n'
                } else if e == 'r' {
                    '\r'
                } else if e == 't' {
                    '\t'
                } else {
                    e
                };
                let ghost pre = out@;
                crate::ext::push_char(&mut out, u);
                proof {
                    assert(u == unescape_char(here[1]));
                    assert forall|t: Seq<char>| true implies pre + (seq![u] + t) =~= out@ + t by {
                        assert(out@ =~= pre.push(u));
                    }
                }
                cur = cur + 2;
            } else {
                return None;
            }
        } else {
            let ghost pre = out@;
            crate::ext::push_char(&mut out, c);
            proof {
                assert forall|t: Seq<char>| true implies pre + (seq![c] + t) =~= out@ + t by {
                    assert(out@ =~= pre.push(c));
                }
            }
            cur = cur + 1;
        }
    }
}

/// Reads a number token at `pos`.
#[verifier::loop_isolation(false)]
fn parse_number_at(s: &str, pos: usize) -> (r: Option<(usize, usize)>)
    requires
        pos <= s@.len(),
    ensures
        match parse_number(s@.skip(pos as int)) {
            None => r is None,
            Some((v, rest)) => r is Some && r.unwrap().0 as nat == v && r.unwrap().1 <= s@.len()
                && s@.skip(r.unwrap().1 as int) == rest,
        },
{
    let n = s.unicode_len();
    let ghost suf = s@.skip(pos as int);
    if pos >= n {
        proof {
            assert(suf.len() == 0);
        }
        return None;
    }
    proof {
        assert(suf[0] == s@[pos as int]);
    }
    let c0 = s.get_char(pos);
    let u0 = c0 as u32;
    if !(48 <= u0 && u0 <= 57) {
        return None;
    }
    let mut acc: usize = 0;
    let mut cur: usize = pos;
    loop
        invariant
            n == s@.len(),
            pos <= cur <= n,
            suf == s@.skip(pos as int),
            parse_digits(suf, 0) == parse_digits(s@.skip(cur as int), acc as nat),
        decreases n - cur,
    {
        let ghost here = s@.skip(cur as int);
        if cur >= n {
            proof {
                assert(here.len() == 0);
            }
            return Some((acc, cur));
        }
        proof {
            assert(here[0] == s@[cur as int]);
            assert(here.drop_first() =~= s@.skip(cur + 1));
        }
        let c = s.get_char(cur);
        let u = c as u32;
        if !(48 <= u && u <= 57) {
            return Some((acc, cur));
        }
        let d = (u - 48) as usize;
        proof {
            assert(d as nat == digit_val(here[0]));
        }
        let big = acc as u128 * 10u128 + d as u128;
        if big > usize::MAX as u128 {
            return None;
        }
        acc = big as usize;
        cur = cur + 1;
    }
}


/// Reads one item object at `pos`.
fn parse_item_at(s: &str, pos: usize) -> (r: Option<(Item, usize)>)
    requires
        pos <= s@.len(),
    ensures
        match parse_item(s@.skip(pos as int)) {
            None => r is None,
            Some((m, rest)) => r is Some && r.unwrap().0@ == m && r.unwrap().1 <= s@.len()
                && s@.skip(r.unwrap().1 as int) == rest,
        },
{
    let p1 = match expect_lit(s, pos, "        {\n          \"id\": ") {
        None => {
            return None;
        },
        Some(p) => p,
    };
    let (id, p2) = match parse_string_at(s, p1) {
        None => {
            return None;
        },
        Some(x) => x,
    };
    let p3 = match expect_lit(s, p2, ",\n          \"title\": ") {
        None => {
            return None;
        },
        Some(p) => p,
    };
    let (title, p4) = match parse_string_at(s, p3) {
        None => {
            return None;
        },
        Some(x) => x,
    };
    let p5 = match expect_lit(s, p4, ",\n          \"comment\": ") {
        None => {
            return None;
        },
        Some(p) => p,
    };
    let (comment, p6) = match parse_string_at(s, p5) {
        None => {
            return None;
        },
        Some(x) => x,
    };
    let p7 = match expect_lit(s, p6, ",\n          \"order\": ") {
        None => {
            return None;
        },
        Some(p) => p,
    };
    let (order, p8) = match parse_number_at(s, p7) {
        None => {
            return None;
        },
        Some(x) => x,
    };
    let p9 = match expect_lit(s, p8, ",\n          \"created_at\": ") {
        None => {
            return None;
        },
        Some(p) => p,
    };
    let (created_at, p10) = match parse_string_at(s, p9) {
        None => {
            return None;
        },
        Some(x) => x,
    };
    let p11 = match expect_lit(s, p10, "\n        }") {
        None => {
            return None;
        },
        Some(p) => p,
    };
    let it = Item { id, title, comment, order, created_at };
    proof {
        assert(it@ =~= parse_item(s@.skip(pos as int)).unwrap().0);
    }
    Some((it, p11))
}

/// Reads an item array tail at `pos`.
#[verifier::loop_isolation(false)]
fn parse_items_at(s: &str, pos: usize) -> (r: Option<(Vec<Item>, usize)>)
    requires
        pos <= s@.len(),
    ensures
        match parse_items(s@.skip(pos as int)) {
            None => r is None,
            Some((ms, rest)) => r is Some && r.unwrap().0.deep_view() == ms && r.unwrap().1
                <= s@.len() && s@.skip(r.unwrap().1 as int) == rest,
        },
{
    let n = s.unicode_len();
    let ghost suf = s@.skip(pos as int);
    if pos >= n {
        proof {
            assert(suf.len() == 0);
        }
        return None;
    }
    proof {
        assert(suf[0] == s@[pos as int]);
    }
    if s.get_char(pos) == ']' {
        let empty: Vec<Item> = Vec::new();
        proof {
            assert(suf.drop_first() =~= s@.skip(pos + 1));
            assert(empty.deep_view() =~= Seq::<ItemModel>::empty());
        }
        return Some((empty, pos + 1));
    }
    let start = match expect_lit(s, pos, "\n") {
        None => {
            return None;
        },
        Some(p) => p,
    };
    let mut acc: Vec<Item> = Vec::new();
    let mut cur: usize = start;
    proof {
        assert(acc.deep_view() =~= Seq::<ItemModel>::empty());
    }
    loop
        invariant
            cur <= n,
            match parse_items_list(s@.skip(cur as int)) {
                None => parse_items_list(s@.skip(start as int)) is None,
                Some((lst, rr)) => parse_items_list(s@.skip(start as int)) == Some(
                    (acc.deep_view() + lst, rr),
                ),
            },
        decreases n - cur,
    {
        let ghost here = s@.skip(cur as int);
        let (it, q) = match parse_item_at(s, cur) {
            None => {
                return None;
            },
            Some(x) => x,
        };
        proof {
            lemma_parse_item_consumes(here);
            assert(s@.skip(q as int).len() < here.len());
            assert(q > cur);
        }
        match expect_lit(s, q, ",\n") {
            Some(q2) => {
                let ghost preacc = acc.deep_view();
                acc.push(it);
                proof {
                    assert(acc.deep_view() =~= preacc.push(it@));
                    assert forall|l: Seq<ItemModel>| true implies preacc + (seq![it@] + l)
                        =~= acc.deep_view() + l by {
                        assert(acc.deep_view() == preacc.push(it@));
                    }
                }
                cur = q2;
            },
            None => {
                match expect_lit(s, q, "\n      ]") {
                    Some(q2) => {
                        let ghost preacc = acc.deep_view();
                        acc.push(it);
                        proof {
                            assert(acc.deep_view() =~= preacc.push(it@));
                            assert(preacc + seq![it@] =~= acc.deep_view());
                        }
                        return Some((acc, q2));
                    },
                    None => {
                        return None;
                    },
                }
            },
        }
    }
}

/// Reads one category object at `pos`.
fn parse_cat_at(s: &str, pos: usize) -> (r: Option<(Category, usize)>)
    requires
        pos <= s@.len(),
    ensures
        match parse_cat(s@.skip(pos as int)) {
            None => r is None,
            Some((m, rest)) => r is Some && r.unwrap().0@ == m && r.unwrap().1 <= s@.len()
                && s@.skip(r.unwrap().1 as int) == rest,
        },
{
    let p1 = match expect_lit(s, pos, "    {\n      \"name\": ") {
        None => {
            return None;
        },
        Some(p) => p,
    };
    let (name, p2) = match parse_string_at(s, p1) {
        None => {
            return None;
        },
        Some(x) => x,
    };
    let p3 = match expect_lit(s, p2, ",\n      \"items\": [") {
        None => {
            return None;
        },
        Some(p) => p,
    };
    let (items, p4) = match parse_items_at(s, p3) {
        None => {
            return None;
        },
        Some(x) => x,
    };
    let p5 = match expect_lit(s, p4, "\n    }") {
        None => {
            return None;
        },
        Some(p) => p,
    };
    let c = Category { name, items };
    proof {
        assert(c@ =~= parse_cat(s@.skip(pos as int)).unwrap().0);
    }
    Some((c, p5))
}

/// Reads the category array tail at `pos`.
#[verifier::loop_isolation(false)]
fn parse_cats_at(s: &str, pos: usize) -> (r: Option<(Vec<Category>, usize)>)
    requires
        pos <= s@.len(),
    ensures
        match parse_cats(s@.skip(pos as int)) {
            None => r is None,
            Some((ms, rest)) => r is Some && r.unwrap().0.deep_view() == ms && r.unwrap().1
                <= s@.len() && s@.skip(r.unwrap().1 as int) == rest,
        },
{
    let n = s.unicode_len();
    let ghost suf = s@.skip(pos as int);
    if pos >= n {
        proof {
            assert(suf.len() == 0);
        }
        return None;
    }
    proof {
        assert(suf[0] == s@[pos as int]);
    }
    if s.get_char(pos) == ']' {
        let empty: Vec<Category> = Vec::new();
        proof {
            assert(suf.drop_first() =~= s@.skip(pos + 1));
            assert(empty.deep_view() =~= Seq::<CategoryModel>::empty());
        }
        return Some((empty, pos + 1));
    }
    let start = match expect_lit(s, pos, "\n") {
        None => {
            return None;
        },
        Some(p) => p,
    };
    let mut acc: Vec<Category> = Vec::new();
    let mut cur: usize = start;
    proof {
        assert(acc.deep_view() =~= Seq::<CategoryModel>::empty());
    }
    loop
        invariant
            cur <= n,
            match parse_cats_list(s@.skip(cur as int)) {
                None => parse_cats_list(s@.skip(start as int)) is None,
                Some((lst, rr)) => parse_cats_list(s@.skip(start as int)) == Some(
                    (acc.deep_view() + lst, rr),
                ),
            },
        decreases n - cur,
    {
        let ghost here = s@.skip(cur as int);
        let (c, q) = match parse_cat_at(s, cur) {
            None => {
                return None;
            },
            Some(x) => x,
        };
        proof {
            lemma_parse_cat_consumes(here);
            assert(s@.skip(q as int).len() < here.len());
            assert(q > cur);
        }
        match expect_lit(s, q, ",\n") {
            Some(q2) => {
                let ghost preacc = acc.deep_view();
                acc.push(c);
                proof {
                    assert(acc.deep_view() =~= preacc.push(c@));
                    assert forall|l: Seq<CategoryModel>| true implies preacc + (seq![c@] + l)
                        =~= acc.deep_view() + l by {
                        assert(acc.deep_view() == preacc.push(c@));
                    }
                }
                cur = q2;
            },
            None => {
                match expect_lit(s, q, "\n  ]") {
                    Some(q2) => {
                        let ghost preacc = acc.deep_view();
                        acc.push(c);
                        proof {
                            assert(acc.deep_view() =~= preacc.push(c@));
                            assert(preacc + seq![c@] =~= acc.deep_view());
                        }
                        return Some((acc, q2));
                    },
                    None => {
                        return None;
                    },
                }
            },
        }
    }
}

/// Reads a whole document from text: the inverse of `encode_document` on
/// canonical text, and `None` on anything else.
pub fn parse_document(s: &str) -> (r: Option<Document>)
    ensures
        match parse_doc(s@) {
            None => r is None,
            Some(m) => r is Some && r.unwrap()@ == m,
        },
{
    proof {
        assert(s@.skip(0) =~= s@);
    }
    let p1 = match expect_lit(s, 0, "{\n  \"categories\": [") {
        None => {
            return None;
        },
        Some(p) => p,
    };
    let (categories, p2) = match parse_cats_at(s, p1) {
        None => {
            return None;
        },
        Some(x) => x,
    };
    let p3 = match expect_lit(s, p2, "\n}") {
        None => {
            return None;
        },
        Some(p) => p,
    };
    let n = s.unicode_len();
    if p3 != n {
        proof {
            assert(s@.skip(p3 as int).len() != 0);
        }
        return None;
    }
    let d = Document { categories };
    proof {
        assert(s@.skip(p3 as int).len() == 0);
        assert(d@ =~= parse_doc(s@).unwrap());
    }
    Some(d)
}

/// Best-effort load: the parsed document when the content is canonical
/// text, and the default document when there is no content or it does not
/// parse. A corrupted file is deliberately discarded this way.
pub fn load_document(content: Option<&str>) -> (r: Document)
    ensures
        content is None ==> r@ == default_document(),
        content is Some ==> match parse_doc(content.unwrap()@) {
            None => r@ == default_document(),
            Some(m) => r@ == m,
        },
{
    match content {
        None => Document::default(),
        Some(s) => match parse_document(s) {
            None => Document::default(),
            Some(d) => d,
        },
    }
}


/// The view of a real document is always bounded: every rank is a machine
/// integer. Together with `lemma_doc_round_trip` this gives the round trip
/// for every document the library can hold.
pub proof fn lemma_document_bounded(doc: &Document)
    ensures
        doc_bounded(doc@),
{
    assert forall|i: int| 0 <= i < doc@.categories.len() implies items_bounded(
        #[trigger] doc@.categories[i].items,
    ) by {
        let items = doc@.categories[i].items;
        assert forall|j: int| 0 <= j < items.len() implies (#[trigger] items[j].order)
            <= usize::MAX as nat by {
            assert(items[j] == doc.categories@[i].items@[j as int]@);
        }
    }
}

} // verus!
