//! What the statement of a search selects: a meaning of its text, and the proof that
//! the rows it selects are the ones that were asked for.

use vstd::prelude::*;

use crate::chars::lowered;
use crate::index::{bound_limit, clause_text, literal, literals, pattern, scoped, select_text,
    statement, BoundText, Clause, Row, Written};
use crate::numbers::dec;
use crate::search::Search;

verus! {

/// A column of a row that holds text.
pub enum Column {
    Subject,
    FromName,
    FromAddr,
    Snippet,
}

/// A row where it is kept.
pub struct Kept {
    pub account: Seq<char>,
    pub mailbox: Seq<char>,
    pub row: Row,
}

/// What a row holds in a column.
pub open spec fn cell(row: Row, column: Column) -> Seq<char> {
    match column {
        Column::Subject => row.subject,
        Column::FromName => row.from_name,
        Column::FromAddr => row.from_address,
        Column::Snippet => row.snippet,
    }
}

/// What a column is called in a statement.
pub open spec fn column_text(column: Column) -> Seq<char> {
    match column {
        Column::Subject => "subject"@,
        Column::FromName => "from_name"@,
        Column::FromAddr => "from_addr"@,
        Column::Snippet => "snippet"@,
    }
}

/// A condition on a row. Parameters are counted from one.
pub enum Condition {
    /// The account is the value of a parameter.
    Account(nat),
    /// The mailbox is the value of a parameter.
    Mailbox(nat),
    /// One of these columns is like the value of a parameter.
    AnyLike(Seq<(Column, nat)>),
    /// The row has attachments.
    Attachments,
}

/// A comparison with a pattern whose wildcards are escaped by a backslash.
pub open spec fn like_text(test: (Column, nat)) -> Seq<char> {
    column_text(test.0) + " LIKE ?"@ + dec(test.1) + " ESCAPE '\\'"@
}

/// White space, and something of it.
pub open spec fn gap(s: Seq<char>) -> bool {
    s.len() > 0 && forall|i: int| 0 <= i < s.len() ==> (#[trigger] s[i]) == ' ' || s[i] == '\n'
}

/// Is this text these comparisons, of which one has to hold?
pub open spec fn reads_any(text: Seq<char>, tests: Seq<(Column, nat)>) -> bool
    decreases tests.len(),
{
    if tests.len() == 0 {
        false
    } else if tests.len() == 1 {
        text == like_text(tests[0])
    } else {
        exists|n: int, m: int|
            #![trigger text.take(n), text.skip(m)]
            0 <= n <= m <= text.len() && reads_any(text.take(n), tests.drop_last()) && gap(
                text.subrange(n, m),
            ) && text.skip(m) == "OR "@ + like_text(tests.last())
    }
}

/// Is this text this condition?
pub open spec fn reads_condition(text: Seq<char>, c: Condition) -> bool {
    match c {
        Condition::Account(n) => text == "account = ?"@ + dec(n),
        Condition::Mailbox(n) => text == "mailbox = ?"@ + dec(n),
        Condition::AnyLike(tests) => (tests.len() == 1 && text == like_text(tests[0])) || (exists|
            inner: Seq<char>,
        |
            #[trigger] reads_any(inner, tests) && text == "("@ + inner + ")"@),
        Condition::Attachments => text == "attachments != 0"@,
    }
}

/// Is this text these conditions, all of which have to hold?
pub open spec fn reads_all_of(text: Seq<char>, all: Seq<Condition>) -> bool
    decreases all.len(),
{
    if all.len() == 0 {
        false
    } else if all.len() == 1 {
        reads_condition(text, all[0])
    } else {
        exists|n: int|
            0 <= n <= text.len() - 5 && reads_all_of(#[trigger] text.take(n), all.drop_last())
                && text.subrange(n, n + 5) == " AND "@ && reads_condition(
                text.skip(n + 5),
                all.last(),
            )
    }
}

/// The value bound to a parameter, if it is a text.
pub open spec fn bound_text(values: Seq<BoundText>, n: nat) -> Seq<char> {
    if 1 <= n <= values.len() {
        match values[n - 1] {
            BoundText::Text(t) => t,
            BoundText::Number(_) => Seq::empty(),
        }
    } else {
        Seq::empty()
    }
}

/// Is a text like a pattern? `%` stands for anything, `_` for one character, a character
/// behind a backslash for itself, and ASCII letters for either case.
pub open spec fn is_like(p: Seq<char>, s: Seq<char>) -> bool
    decreases p.len(),
{
    if p.len() == 0 {
        s.len() == 0
    } else if p[0] == '%' {
        exists|k: int| 0 <= k <= s.len() && is_like(p.skip(1), #[trigger] s.skip(k))
    } else if p[0] == '_' {
        s.len() > 0 && is_like(p.skip(1), s.skip(1))
    } else if p[0] == '\\' && p.len() > 1 {
        s.len() > 0 && lowered(s)[0] == lowered(p)[1] && is_like(p.skip(2), s.skip(1))
    } else {
        s.len() > 0 && lowered(s)[0] == lowered(p)[0] && is_like(p.skip(1), s.skip(1))
    }
}

/// Does a row meet a condition?
pub open spec fn meets(c: Condition, values: Seq<BoundText>, kept: Kept) -> bool {
    match c {
        Condition::Account(n) => kept.account == bound_text(values, n),
        Condition::Mailbox(n) => kept.mailbox == bound_text(values, n),
        Condition::AnyLike(tests) => exists|i: int|
            0 <= i < tests.len() && is_like(
                bound_text(values, (#[trigger] tests[i]).1),
                cell(kept.row, tests[i].0),
            ),
        Condition::Attachments => kept.row.has_attachments,
    }
}

/// Is a row selected?
pub open spec fn selected(all: Seq<Condition>, values: Seq<BoundText>, kept: Kept) -> bool {
    forall|i: int| 0 <= i < all.len() ==> meets(#[trigger] all[i], values, kept)
}

/// Do the conditions speak of the first parameters only?
spec fn within(all: Seq<Condition>, n: nat) -> bool {
    forall|i: int|
        0 <= i < all.len() ==> match #[trigger] all[i] {
            Condition::Account(k) => 1 <= k <= n,
            Condition::Mailbox(k) => 1 <= k <= n,
            Condition::AnyLike(tests) => forall|j: int|
                0 <= j < tests.len() ==> 1 <= (#[trigger] tests[j]).1 <= n,
            Condition::Attachments => true,
        }
}

/// Does a term occur in a text, whatever the case of its letters?
pub open spec fn occurs(term: Seq<char>, s: Seq<char>) -> bool {
    exists|a: int|
        0 <= a <= s.len() - term.len() && lowered(#[trigger] s.subrange(a, a + term.len()))
            == lowered(term)
}

proof fn lemma_literals_front(s: Seq<char>)
    requires
        s.len() > 0,
    ensures
        literals(s) == literal(s[0]) + literals(s.skip(1)),
    decreases s.len(),
{
    if s.len() == 1 {
        assert(s.drop_last() =~= Seq::<char>::empty());
        assert(s.skip(1) =~= Seq::<char>::empty());
        assert(literals(s.drop_last()) =~= Seq::<char>::empty());
        assert(literals(s) =~= literal(s[0]) + literals(s.skip(1)));
    } else {
        let t = s.drop_last();
        lemma_literals_front(t);
        assert(t.skip(1) =~= s.skip(1).drop_last());
        assert(literals(s) =~= literal(s[0]) + literals(s.skip(1)));
    }
}

proof fn lemma_like_prefix(term: Seq<char>, s: Seq<char>)
    ensures
        is_like(literals(term) + seq!['%'], s) <==> term.len() <= s.len() && lowered(
            s.take(term.len() as int),
        ) == lowered(term),
    decreases term.len(),
{
    reveal_with_fuel(is_like, 2);
    let p = literals(term) + seq!['%'];
    if term.len() == 0 {
        assert(p =~= seq!['%']);
        assert(p.skip(1) =~= Seq::<char>::empty());
        assert(s.skip(s.len() as int) =~= Seq::<char>::empty());
        assert(is_like(p.skip(1), s.skip(s.len() as int)));
        assert(lowered(s.take(0)) =~= lowered(term));
    } else {
        let rest = term.skip(1);
        lemma_literals_front(term);
        let q = literals(rest) + seq!['%'];
        assert(p =~= literal(term[0]) + q);
        if s.len() > 0 {
            lemma_like_prefix(rest, s.skip(1));
        }
        if term[0] == '%' || term[0] == '_' || term[0] == '\\' {
            assert(p[0] == '\\' && p[1] == term[0]);
            assert(p.skip(2) =~= q);
        } else {
            assert(p[0] == term[0]);
            assert(p.skip(1) =~= q);
        }
        if s.len() > 0 && term.len() <= s.len() {
            let a = lowered(s.take(term.len() as int));
            let b = lowered(term);
            let a1 = lowered(s.skip(1).take(rest.len() as int));
            let b1 = lowered(rest);
            if a == b {
                assert(a[0] == b[0]);
                assert(a1 =~= a.skip(1));
                assert(b1 =~= b.skip(1));
            }
            if a1 == b1 && lowered(s)[0] == lowered(term)[0] {
                assert forall|i: int| 0 <= i < a.len() implies a[i] == b[i] by {
                    if i > 0 {
                        assert(a[i] == a1[i - 1]);
                        assert(b[i] == b1[i - 1]);
                    }
                }
                assert(a =~= b);
            }
        }
    }
}

/// A pattern made of a term finds it wherever it occurs, and nothing else, whatever
/// characters it is made of.
pub proof fn a_pattern_finds_its_term(term: Seq<char>, s: Seq<char>)
    ensures
        is_like(pattern(term), s) <==> occurs(term, s),
{
    reveal_with_fuel(is_like, 2);
    let p = pattern(term);
    let q = literals(term) + seq!['%'];
    assert(p.skip(1) =~= q);
    assert(p[0] == '%');
    if is_like(p, s) {
        let k = choose|k: int| 0 <= k <= s.len() && is_like(p.skip(1), #[trigger] s.skip(k));
        lemma_like_prefix(term, s.skip(k));
        assert(s.skip(k).take(term.len() as int) =~= s.subrange(k, k + term.len()));
    }
    if occurs(term, s) {
        let a = choose|a: int|
            0 <= a <= s.len() - term.len() && lowered(#[trigger] s.subrange(a, a + term.len()))
                == lowered(term);
        lemma_like_prefix(term, s.skip(a));
        assert(s.skip(a).take(term.len() as int) =~= s.subrange(a, a + term.len()));
        assert(is_like(p.skip(1), s.skip(a)));
    }
}

proof fn lemma_one_more(
    front: Seq<char>,
    tests: Seq<(Column, nat)>,
    space: Seq<char>,
    last: (Column, nat),
)
    requires
        reads_any(front, tests),
        tests.len() > 0,
        gap(space),
    ensures
        reads_any(front + space + "OR "@ + like_text(last), tests.push(last)),
{
    reveal_with_fuel(reads_any, 2);
    let all = tests.push(last);
    assert(all.drop_last() =~= tests);
    let text = front + space + "OR "@ + like_text(last);
    let n = front.len() as int;
    let m = n + space.len();
    assert(text.take(n) =~= front);
    assert(text.subrange(n, m) =~= space);
    assert(text.skip(m) =~= "OR "@ + like_text(last));
}

proof fn lemma_step(
    x: Seq<char>,
    esc: Seq<char>,
    p: Seq<char>,
    a: Seq<char>,
    link: Seq<char>,
    c: Seq<char>,
    d: Seq<char>,
)
    requires
        x + esc == p + a,
    ensures
        x + (esc + (link + c)) + d + esc == p + (a + link + (c + d + esc)),
{
    assert(x + (esc + (link + c)) + d + esc =~= (x + esc) + (link + c + d + esc));
    assert(p + (a + link + (c + d + esc)) =~= (p + a) + (link + c + d + esc));
}

proof fn lemma_words()
    ensures
        " AND (subject LIKE ?"@ == " AND ("@ + ("subject"@ + " LIKE ?"@),
        " ESCAPE '\\' OR from_name LIKE ?"@ == " ESCAPE '\\'"@ + ((seq![' '] + "OR "@) + ("from_name"@
            + " LIKE ?"@)),
        " ESCAPE '\\'\n                       OR from_addr LIKE ?"@ == " ESCAPE '\\'"@ + ((
        "\n                       "@ + "OR "@) + ("from_addr"@ + " LIKE ?"@)),
        " ESCAPE '\\' OR snippet LIKE ?"@ == " ESCAPE '\\'"@ + ((seq![' '] + "OR "@) + ("snippet"@
            + " LIKE ?"@)),
        " ESCAPE '\\')"@ == " ESCAPE '\\'"@ + ")"@,
        " AND (from_name LIKE ?"@ == " AND ("@ + ("from_name"@ + " LIKE ?"@),
        " ESCAPE '\\' OR from_addr LIKE ?"@ == " ESCAPE '\\'"@ + ((seq![' '] + "OR "@) + ("from_addr"@
            + " LIKE ?"@)),
        " AND subject LIKE ?"@ == " AND "@ + ("subject"@ + " LIKE ?"@),
        " AND ("@ == " AND "@ + "("@,
        " AND "@.len() == 5,
        gap(seq![' ']),
        gap("\n                       "@),
{
    reveal_strlit("subject");
    reveal_strlit("from_name");
    reveal_strlit("from_addr");
    reveal_strlit("snippet");
    reveal_strlit(" LIKE ?");
    reveal_strlit(" ESCAPE '\\'");
    reveal_strlit("OR ");
    reveal_strlit("(");
    reveal_strlit(")");
    reveal_strlit(" AND ");
    reveal_strlit(" AND (");
    reveal_strlit("\n                       ");
    assert(gap("\n                       "@));
    assert(gap(seq![' ']));
    assert(" AND ("@ =~= " AND "@ + "("@);
    assert(" AND (subject LIKE ?"@ =~= " AND ("@ + ("subject"@ + " LIKE ?"@)) by {
        reveal_strlit(" AND (subject LIKE ?");
    }
    assert(" ESCAPE '\\' OR from_name LIKE ?"@ =~= " ESCAPE '\\'"@ + ((seq![' '] + "OR "@) + (
    "from_name"@ + " LIKE ?"@))) by {
        reveal_strlit(" ESCAPE '\\' OR from_name LIKE ?");
    }
    assert(" ESCAPE '\\'\n                       OR from_addr LIKE ?"@ =~= " ESCAPE '\\'"@ + ((
    "\n                       "@ + "OR "@) + ("from_addr"@ + " LIKE ?"@))) by {
        reveal_strlit(" ESCAPE '\\'\n                       OR from_addr LIKE ?");
    }
    assert(" ESCAPE '\\' OR snippet LIKE ?"@ =~= " ESCAPE '\\'"@ + ((seq![' '] + "OR "@) + (
    "snippet"@ + " LIKE ?"@))) by {
        reveal_strlit(" ESCAPE '\\' OR snippet LIKE ?");
    }
    assert(" ESCAPE '\\')"@ =~= " ESCAPE '\\'"@ + ")"@) by {
        reveal_strlit(" ESCAPE '\\')");
    }
    assert(" AND (from_name LIKE ?"@ =~= " AND ("@ + ("from_name"@ + " LIKE ?"@)) by {
        reveal_strlit(" AND (from_name LIKE ?");
    }
    assert(" ESCAPE '\\' OR from_addr LIKE ?"@ =~= " ESCAPE '\\'"@ + ((seq![' '] + "OR "@) + (
    "from_addr"@ + " LIKE ?"@))) by {
        reveal_strlit(" ESCAPE '\\' OR from_addr LIKE ?");
    }
    assert(" AND subject LIKE ?"@ =~= " AND "@ + ("subject"@ + " LIKE ?"@)) by {
        reveal_strlit(" AND subject LIKE ?");
    }
}

proof fn lemma_closed(x: Seq<char>, esc: Seq<char>, p: Seq<char>, a: Seq<char>)
    requires
        x + esc == p + a,
        p == " AND ("@,
    ensures
        x + (esc + ")"@) == " AND "@ + ("("@ + a + ")"@),
{
    lemma_words();
    assert(x + (esc + ")"@) =~= (x + esc) + ")"@);
    assert((" AND "@ + "("@) + a + ")"@ =~= " AND "@ + ("("@ + a + ")"@));
}

proof fn lemma_behind(s: Seq<char>, text: Seq<char>)
    requires
        s == " AND "@ + text,
        " AND "@.len() == 5,
    ensures
        s.take(5) == " AND "@,
        s.skip(5) == text,
{
    assert(s.take(5) =~= " AND "@);
    assert(s.skip(5) =~= text);
}

/// What the clause of a bare word, of a sender and of a subject tests: the word is looked
/// for in the subject, the sender's name, the sender's address and the first line; a
/// sender in the sender's name and address; a subject in the subject.
pub proof fn which_columns_a_clause_tests(n: nat)
    ensures
        clause_text(Clause::Anywhere, n).take(5) == " AND "@,
        reads_condition(
            clause_text(Clause::Anywhere, n).skip(5),
            Condition::AnyLike(
                seq![
                    (Column::Subject, n),
                    (Column::FromName, n),
                    (Column::FromAddr, n),
                    (Column::Snippet, n),
                ],
            ),
        ),
        clause_text(Clause::Sender, n).take(5) == " AND "@,
        reads_condition(
            clause_text(Clause::Sender, n).skip(5),
            Condition::AnyLike(seq![(Column::FromName, n), (Column::FromAddr, n)]),
        ),
        clause_text(Clause::Subject, n).take(5) == " AND "@,
        reads_condition(
            clause_text(Clause::Subject, n).skip(5),
            Condition::AnyLike(seq![(Column::Subject, n)]),
        ),
{
    lemma_words();
    let d = dec(n);
    let esc = " ESCAPE '\\'"@;
    let p = " AND ("@;
    let one = seq![' '];
    let wide = "\n                       "@;
    let t0 = (Column::Subject, n);
    let t1 = (Column::FromName, n);
    let t2 = (Column::FromAddr, n);
    let t3 = (Column::Snippet, n);
    let c0 = "subject"@ + " LIKE ?"@;
    let c1 = "from_name"@ + " LIKE ?"@;
    let c2 = "from_addr"@ + " LIKE ?"@;
    let c3 = "snippet"@ + " LIKE ?"@;
    let l0 = like_text(t0);
    let l1 = like_text(t1);
    // A bare word.
    let x0 = " AND (subject LIKE ?"@ + d;
    assert(x0 + esc =~= p + l0);
    assert(reads_any(l0, seq![t0]));
    let a1 = l0 + one + "OR "@ + l1;
    lemma_step(x0, esc, p, l0, one + "OR "@, c1, d);
    assert(a1 =~= l0 + (one + "OR "@) + (c1 + d + esc));
    let x1 = x0 + " ESCAPE '\\' OR from_name LIKE ?"@ + d;
    lemma_one_more(l0, seq![t0], one, t1);
    assert(seq![t0].push(t1) =~= seq![t0, t1]);
    let a2 = a1 + wide + "OR "@ + like_text(t2);
    lemma_step(x1, esc, p, a1, wide + "OR "@, c2, d);
    assert(a2 =~= a1 + (wide + "OR "@) + (c2 + d + esc));
    let x2 = x1 + " ESCAPE '\\'\n                       OR from_addr LIKE ?"@ + d;
    lemma_one_more(a1, seq![t0, t1], wide, t2);
    assert(seq![t0, t1].push(t2) =~= seq![t0, t1, t2]);
    let a3 = a2 + one + "OR "@ + like_text(t3);
    lemma_step(x2, esc, p, a2, one + "OR "@, c3, d);
    assert(a3 =~= a2 + (one + "OR "@) + (c3 + d + esc));
    let x3 = x2 + " ESCAPE '\\' OR snippet LIKE ?"@ + d;
    lemma_one_more(a2, seq![t0, t1, t2], one, t3);
    assert(seq![t0, t1, t2].push(t3) =~= seq![t0, t1, t2, t3]);
    lemma_closed(x3, esc, p, a3);
    assert(reads_condition("("@ + a3 + ")"@, Condition::AnyLike(seq![t0, t1, t2, t3])));
    assert(clause_text(Clause::Anywhere, n) == x3 + (esc + ")"@));
    lemma_behind(clause_text(Clause::Anywhere, n), "("@ + a3 + ")"@);
    // A sender.
    let y0 = " AND (from_name LIKE ?"@ + d;
    assert(y0 + esc =~= p + l1);
    assert(reads_any(l1, seq![t1]));
    let b1 = l1 + one + "OR "@ + like_text(t2);
    lemma_step(y0, esc, p, l1, one + "OR "@, c2, d);
    assert(b1 =~= l1 + (one + "OR "@) + (c2 + d + esc));
    let y1 = y0 + " ESCAPE '\\' OR from_addr LIKE ?"@ + d;
    lemma_one_more(l1, seq![t1], one, t2);
    assert(seq![t1].push(t2) =~= seq![t1, t2]);
    lemma_closed(y1, esc, p, b1);
    assert(reads_condition("("@ + b1 + ")"@, Condition::AnyLike(seq![t1, t2])));
    assert(clause_text(Clause::Sender, n) == y1 + (esc + ")"@));
    lemma_behind(clause_text(Clause::Sender, n), "("@ + b1 + ")"@);
    // A subject.
    assert(reads_condition(l0, Condition::AnyLike(seq![t0])));
    assert(clause_text(Clause::Subject, n) =~= " AND "@ + l0);
    lemma_behind(clause_text(Clause::Subject, n), l0);
}

/// The beginning of every statement.
pub open spec fn select_head() -> Seq<char> {
    "SELECT mailbox, uid, thread_id, from_name, from_addr, subject, date_ms,\n                    snippet, attachments\n             FROM messages WHERE "@
}

/// Comparisons of some columns with one parameter.
pub open spec fn over(columns: Seq<Column>, n: nat) -> Seq<(Column, nat)> {
    columns.map_values(|c: Column| (c, n))
}

/// Does a term occur in one of these columns?
pub open spec fn found(term: Seq<char>, row: Row, columns: Seq<Column>) -> bool {
    exists|j: int| 0 <= j < columns.len() && occurs(term, cell(row, #[trigger] columns[j]))
}

proof fn lemma_kept_values(
    all: Seq<Condition>,
    values: Seq<BoundText>,
    value: BoundText,
    kept: Kept,
)
    requires
        within(all, values.len()),
    ensures
        selected(all, values.push(value), kept) == selected(all, values, kept),
        within(all, values.len() + 1),
{
    let longer = values.push(value);
    assert forall|i: int| 0 <= i < all.len() implies meets(#[trigger] all[i], longer, kept)
        == meets(all[i], values, kept) by {
        match all[i] {
            Condition::AnyLike(tests) => {
                assert forall|j: int| 0 <= j < tests.len() implies bound_text(
                    longer,
                    (#[trigger] tests[j]).1,
                ) == bound_text(values, tests[j].1) by {}
                if meets(all[i], longer, kept) {
                    let j = choose|j: int|
                        0 <= j < tests.len() && is_like(
                            bound_text(longer, (#[trigger] tests[j]).1),
                            cell(kept.row, tests[j].0),
                        );
                    assert(is_like(bound_text(values, tests[j].1), cell(kept.row, tests[j].0)));
                }
                if meets(all[i], values, kept) {
                    let j = choose|j: int|
                        0 <= j < tests.len() && is_like(
                            bound_text(values, (#[trigger] tests[j]).1),
                            cell(kept.row, tests[j].0),
                        );
                    assert(is_like(bound_text(longer, tests[j].1), cell(kept.row, tests[j].0)));
                }
            },
            _ => {},
        }
    }
    if selected(all, longer, kept) {
        assert forall|i: int| 0 <= i < all.len() implies meets(#[trigger] all[i], values, kept) by {
            assert(meets(all[i], longer, kept));
        }
    }
    if selected(all, values, kept) {
        assert forall|i: int| 0 <= i < all.len() implies meets(#[trigger] all[i], longer, kept) by {
            assert(meets(all[i], values, kept));
        }
    }
}

proof fn lemma_and(text: Seq<char>, all: Seq<Condition>, last: Seq<char>, c: Condition)
    requires
        all.len() > 0,
        reads_all_of(text, all),
        reads_condition(last, c),
        " AND "@.len() == 5,
    ensures
        reads_all_of(text + " AND "@ + last, all.push(c)),
{
    reveal_with_fuel(reads_all_of, 2);
    let more = all.push(c);
    assert(more.drop_last() =~= all);
    let t = text + " AND "@ + last;
    let n = text.len() as int;
    assert(t.take(n) =~= text);
    assert(t.subrange(n, n + 5) =~= " AND "@);
    assert(t.skip(n + 5) =~= last);
}

proof fn lemma_selected_push(all: Seq<Condition>, c: Condition, values: Seq<BoundText>, kept: Kept)
    ensures
        selected(all.push(c), values, kept) == (selected(all, values, kept) && meets(
            c,
            values,
            kept,
        )),
{
    let more = all.push(c);
    if selected(more, values, kept) {
        assert forall|i: int| 0 <= i < all.len() implies meets(#[trigger] all[i], values, kept) by {
            assert(meets(more[i], values, kept));
        }
        assert(meets(more[all.len() as int], values, kept));
    }
    if selected(all, values, kept) && meets(c, values, kept) {
        assert forall|i: int| 0 <= i < more.len() implies meets(#[trigger] more[i], values, kept) by {
            if i < all.len() {
                assert(meets(all[i], values, kept));
            }
        }
    }
}

proof fn lemma_meets_term(
    columns: Seq<Column>,
    values: Seq<BoundText>,
    term: Seq<char>,
    kept: Kept,
)
    requires
        values.len() > 0,
        values.last() == BoundText::Text(pattern(term)),
    ensures
        meets(Condition::AnyLike(over(columns, values.len())), values, kept) == found(
            term,
            kept.row,
            columns,
        ),
{
    let tests = over(columns, values.len());
    let c = Condition::AnyLike(tests);
    assert(values[values.len() - 1] == values.last());
    assert(bound_text(values, values.len()) == pattern(term));
    if meets(c, values, kept) {
        let j = choose|j: int|
            0 <= j < tests.len() && is_like(
                bound_text(values, (#[trigger] tests[j]).1),
                cell(kept.row, tests[j].0),
            );
        assert(tests[j] == (columns[j], values.len()));
        a_pattern_finds_its_term(term, cell(kept.row, columns[j]));
        assert(occurs(term, cell(kept.row, columns[j])));
        assert(found(term, kept.row, columns));
    }
    if found(term, kept.row, columns) {
        let j = choose|j: int|
            0 <= j < columns.len() && occurs(term, cell(kept.row, #[trigger] columns[j]));
        a_pattern_finds_its_term(term, cell(kept.row, columns[j]));
        assert(tests[j] == (columns[j], values.len()));
        assert(is_like(bound_text(values, tests[j].1), cell(kept.row, tests[j].0)));
        match c {
            Condition::AnyLike(ts) => {
                assert(ts == tests);
                assert(is_like(bound_text(values, ts[j].1), cell(kept.row, ts[j].0)));
                assert(meets(c, values, kept));
            },
            _ => {},
        }
    }
}

/// Does a clause compare these columns with its parameter?
spec fn tests(clause: Clause, columns: Seq<Column>) -> bool {
    &&& forall|n: nat| (#[trigger] clause_text(clause, n)).take(5) == " AND "@
    &&& forall|n: nat|
        reads_condition(
            (#[trigger] clause_text(clause, n)).skip(5),
            Condition::AnyLike(over(columns, n)),
        )
}

proof fn lemma_term_meaning(
    conds: Seq<Condition>,
    values: Seq<BoundText>,
    columns: Seq<Column>,
    terms: Seq<Seq<char>>,
    kept: Kept,
)
    requires
        within(conds, values.len()),
        terms.len() > 0,
    ensures
        selected(
            conds.push(Condition::AnyLike(over(columns, values.len() + 1))),
            values.push(BoundText::Text(pattern(terms.last()))),
            kept,
        ) == (selected(conds, values, kept) && found(terms.last(), kept.row, columns)),
{
    let longer = values.push(BoundText::Text(pattern(terms.last())));
    let c = Condition::AnyLike(over(columns, values.len() + 1));
    lemma_selected_push(conds, c, longer, kept);
    lemma_kept_values(conds, values, BoundText::Text(pattern(terms.last())), kept);
    lemma_meets_term(columns, longer, terms.last(), kept);
}

proof fn lemma_all_but_last(terms: Seq<Seq<char>>, row: Row, columns: Seq<Column>)
    requires
        terms.len() > 0,
    ensures
        (forall|i: int| 0 <= i < terms.len() ==> found(#[trigger] terms[i], row, columns)) == ((
        forall|i: int|
            0 <= i < terms.drop_last().len() ==> found(
                #[trigger] terms.drop_last()[i],
                row,
                columns,
            )) && found(terms.last(), row, columns)),
{
    let t = terms.drop_last();
    if forall|i: int| 0 <= i < terms.len() ==> found(#[trigger] terms[i], row, columns) {
        assert forall|i: int| 0 <= i < t.len() implies found(#[trigger] t[i], row, columns) by {
            assert(t[i] == terms[i]);
        }
        assert(found(terms[terms.len() - 1], row, columns));
    }
    if (forall|i: int| 0 <= i < t.len() ==> found(#[trigger] t[i], row, columns)) && found(
        terms.last(),
        row,
        columns,
    ) {
        assert forall|i: int| 0 <= i < terms.len() implies found(#[trigger] terms[i], row, columns) by {
            if i < t.len() {
                assert(t[i] == terms[i]);
            }
        }
    }
}

proof fn lemma_terms(
    w: Written,
    text: Seq<char>,
    all: Seq<Condition>,
    clause: Clause,
    columns: Seq<Column>,
    terms: Seq<Seq<char>>,
) -> (r: (Seq<char>, Seq<Condition>))
    requires
        w.sql == select_head() + text,
        all.len() > 0,
        reads_all_of(text, all),
        within(all, w.values.len()),
        tests(clause, columns),
    ensures
        w.with_terms(clause, terms).sql == select_head() + r.0,
        r.1.len() > 0,
        reads_all_of(r.0, r.1),
        within(r.1, w.with_terms(clause, terms).values.len()),
        forall|kept: Kept| #[trigger]
            selected(r.1, w.with_terms(clause, terms).values, kept) == (selected(
                all,
                w.values,
                kept,
            ) && forall|i: int|
                0 <= i < terms.len() ==> found(#[trigger] terms[i], kept.row, columns)),
    decreases terms.len(),
{
    if terms.len() == 0 {
        (text, all)
    } else {
        let t = terms.drop_last();
        let term = terms.last();
        let (front, conds) = lemma_terms(w, text, all, clause, columns, t);
        let v = w.with_terms(clause, t);
        let after = w.with_terms(clause, terms);
        let n = after.values.len();
        let piece = clause_text(clause, n);
        let c = Condition::AnyLike(over(columns, n));
        lemma_words();
        assert(piece =~= " AND "@ + piece.skip(5)) by {
            assert(piece.take(5) + piece.skip(5) =~= piece);
        }
        lemma_and(front, conds, piece.skip(5), c);
        let whole = front + " AND "@ + piece.skip(5);
        assert(after.sql =~= select_head() + whole);
        let more = conds.push(c);
        assert(within(more, n)) by {
            assert forall|i: int| 0 <= i < more.len() implies match #[trigger] more[i] {
                Condition::Account(k) => 1 <= k <= n,
                Condition::Mailbox(k) => 1 <= k <= n,
                Condition::AnyLike(tests) => forall|j: int|
                    0 <= j < tests.len() ==> 1 <= (#[trigger] tests[j]).1 <= n,
                Condition::Attachments => true,
            } by {
                if i < conds.len() {
                    assert(more[i] == conds[i]);
                }
            }
        }
        assert forall|kept: Kept| #[trigger]
            selected(more, after.values, kept) == (selected(all, w.values, kept) && forall|i: int|
                0 <= i < terms.len() ==> found(#[trigger] terms[i], kept.row, columns)) by {
            assert(selected(conds, v.values, kept) == (selected(all, w.values, kept) && forall|
                i: int,
            |
                0 <= i < t.len() ==> found(#[trigger] t[i], kept.row, columns)));
            lemma_term_meaning(conds, v.values, columns, terms, kept);
            lemma_all_but_last(terms, kept.row, columns);
        }
        (whole, more)
    }
}

/// What a search selects: of the rows of the account, and of one mailbox where one was
/// named, exactly those in which every bare word occurs in the subject, the sender's name,
/// the sender's address or the first line, every sender in the sender's name or address,
/// and every subject in the subject, and which have attachments where that was asked for;
/// the newest first, and no more than the limit.
pub proof fn what_a_search_selects(
    account: Seq<char>,
    mailbox: Option<Seq<char>>,
    query: Search,
    limit: usize,
) -> (r: (Seq<char>, Seq<Condition>))
    ensures
        ({
            let s = statement(account, mailbox, query, limit);
            &&& s.sql == select_head() + r.0 + " ORDER BY date_ms DESC LIMIT ?"@ + dec(
                s.values.len(),
            )
            &&& reads_all_of(r.0, r.1)
            &&& s.values.len() > 0
            &&& limit <= i64::MAX ==> s.values.last() == BoundText::Number(limit as i64)
            &&& forall|kept: Kept| #[trigger]
                selected(r.1, s.values, kept) <==> {
                    &&& kept.account == account
                    &&& mailbox matches Some(m) ==> kept.mailbox == m
                    &&& forall|i: int|
                        0 <= i < query.terms.len() ==> occurs(
                            #[trigger] query.terms[i],
                            kept.row.subject,
                        ) || occurs(query.terms[i], kept.row.from_name) || occurs(
                            query.terms[i],
                            kept.row.from_address,
                        ) || occurs(query.terms[i], kept.row.snippet)
                    &&& forall|i: int|
                        0 <= i < query.from.len() ==> occurs(
                            #[trigger] query.from[i],
                            kept.row.from_name,
                        ) || occurs(query.from[i], kept.row.from_address)
                    &&& forall|i: int|
                        0 <= i < query.subject.len() ==> occurs(
                            #[trigger] query.subject[i],
                            kept.row.subject,
                        )
                    &&& query.has_attachment ==> kept.row.has_attachments
                }
        }),
{
    lemma_words();
    let one = "account = ?"@ + dec(1);
    let first = seq![Condition::Account(1)];
    assert(select_text() == select_head() + one) by {
        lemma_select();
    }
    let start = Written { sql: select_text(), values: seq![BoundText::Text(account)] };
    assert(reads_all_of(one, first));
    assert(within(first, 1));
    let w = scoped(account, mailbox);
    let (text, all) = match mailbox {
        Some(m) => {
            let c = Condition::Mailbox(2);
            let last = "mailbox = ?"@ + dec(2);
            lemma_and(one, first, last, c);
            assert(" AND mailbox = ?"@ =~= " AND "@ + "mailbox = ?"@) by {
                reveal_strlit(" AND mailbox = ?");
                reveal_strlit(" AND ");
                reveal_strlit("mailbox = ?");
            }
            assert(w.sql =~= select_head() + (one + " AND "@ + last));
            assert(first.push(c) =~= seq![Condition::Account(1), c]);
            (one + " AND "@ + last, first.push(c))
        },
        None => (one, first),
    };
    assert(within(all, w.values.len()));
    let everywhere = seq![
        Column::Subject,
        Column::FromName,
        Column::FromAddr,
        Column::Snippet,
    ];
    let sender = seq![Column::FromName, Column::FromAddr];
    let subject = seq![Column::Subject];
    lemma_clauses(everywhere, sender, subject);
    let w1 = w.with_terms(Clause::Anywhere, query.terms);
    let (t1, c1) = lemma_terms(w, text, all, Clause::Anywhere, everywhere, query.terms);
    let w2 = w1.with_terms(Clause::Sender, query.from);
    let (t2, c2) = lemma_terms(w1, t1, c1, Clause::Sender, sender, query.from);
    let w3 = w2.with_terms(Clause::Subject, query.subject);
    let (t3, c3) = lemma_terms(w2, t2, c2, Clause::Subject, subject, query.subject);
    let (t4, c4) = if query.has_attachment {
        lemma_and(t3, c3, "attachments != 0"@, Condition::Attachments);
        (t3 + " AND "@ + "attachments != 0"@, c3.push(Condition::Attachments))
    } else {
        (t3, c3)
    };
    let s = statement(account, mailbox, query, limit);
    let filtered = if query.has_attachment {
        w3.sql + " AND attachments != 0"@
    } else {
        w3.sql
    };
    assert(" AND attachments != 0"@ =~= " AND "@ + "attachments != 0"@) by {
        reveal_strlit(" AND attachments != 0");
        reveal_strlit(" AND ");
        reveal_strlit("attachments != 0");
    }
    assert(filtered =~= select_head() + t4);
    assert(s.sql == filtered + " ORDER BY date_ms DESC LIMIT ?"@ + dec(s.values.len()));
    assert(within(c4, w3.values.len())) by {
        assert forall|i: int| 0 <= i < c4.len() implies match #[trigger] c4[i] {
            Condition::Account(k) => 1 <= k <= w3.values.len(),
            Condition::Mailbox(k) => 1 <= k <= w3.values.len(),
            Condition::AnyLike(tests) => forall|j: int|
                0 <= j < tests.len() ==> 1 <= (#[trigger] tests[j]).1 <= w3.values.len(),
            Condition::Attachments => true,
        } by {
            if i < c3.len() {
                assert(c4[i] == c3[i]);
            }
        }
    }
    assert forall|kept: Kept| #[trigger]
        selected(c4, s.values, kept) <==> {
            &&& kept.account == account
            &&& mailbox matches Some(m) ==> kept.mailbox == m
            &&& forall|i: int|
                0 <= i < query.terms.len() ==> occurs(#[trigger] query.terms[i], kept.row.subject)
                    || occurs(query.terms[i], kept.row.from_name) || occurs(
                    query.terms[i],
                    kept.row.from_address,
                ) || occurs(query.terms[i], kept.row.snippet)
            &&& forall|i: int|
                0 <= i < query.from.len() ==> occurs(#[trigger] query.from[i], kept.row.from_name)
                    || occurs(query.from[i], kept.row.from_address)
            &&& forall|i: int|
                0 <= i < query.subject.len() ==> occurs(
                    #[trigger] query.subject[i],
                    kept.row.subject,
                )
            &&& query.has_attachment ==> kept.row.has_attachments
        } by {
        lemma_kept_values(c4, w3.values, BoundText::Number(bound_limit(limit)), kept);
        if query.has_attachment {
            lemma_selected_push(c3, Condition::Attachments, w3.values, kept);
        }
        lemma_first(account, mailbox, all, w.values, kept);
        assert forall|term: Seq<char>| #[trigger] found(term, kept.row, everywhere) == (occurs(
            term,
            kept.row.subject,
        ) || occurs(term, kept.row.from_name) || occurs(term, kept.row.from_address) || occurs(
            term,
            kept.row.snippet,
        )) by {
            lemma_found_four(term, kept.row);
        }
        assert forall|term: Seq<char>| #[trigger] found(term, kept.row, sender) == (occurs(
            term,
            kept.row.from_name,
        ) || occurs(term, kept.row.from_address)) by {
            assert(sender[0] == Column::FromName && sender[1] == Column::FromAddr);
        }
        assert forall|term: Seq<char>| #[trigger] found(term, kept.row, subject) == occurs(
            term,
            kept.row.subject,
        ) by {
            assert(subject[0] == Column::Subject);
        }
        assert(selected(c3, w3.values, kept) == (selected(c2, w2.values, kept) && forall|i: int|
            0 <= i < query.subject.len() ==> found(
                #[trigger] query.subject[i],
                kept.row,
                subject,
            )));
        assert(selected(c2, w2.values, kept) == (selected(c1, w1.values, kept) && forall|i: int|
            0 <= i < query.from.len() ==> found(#[trigger] query.from[i], kept.row, sender)));
        assert(selected(c1, w1.values, kept) == (selected(all, w.values, kept) && forall|i: int|
            0 <= i < query.terms.len() ==> found(#[trigger] query.terms[i], kept.row, everywhere)));
    }
    (t4, c4)
}

proof fn lemma_found_four(term: Seq<char>, row: Row)
    ensures
        found(
            term,
            row,
            seq![Column::Subject, Column::FromName, Column::FromAddr, Column::Snippet],
        ) == (occurs(term, row.subject) || occurs(term, row.from_name) || occurs(
            term,
            row.from_address,
        ) || occurs(term, row.snippet)),
{
    let all = seq![Column::Subject, Column::FromName, Column::FromAddr, Column::Snippet];
    assert(all[0] == Column::Subject && all[1] == Column::FromName && all[2] == Column::FromAddr
        && all[3] == Column::Snippet);
}

proof fn lemma_first(
    account: Seq<char>,
    mailbox: Option<Seq<char>>,
    all: Seq<Condition>,
    values: Seq<BoundText>,
    kept: Kept,
)
    requires
        values == scoped(account, mailbox).values,
        mailbox is None ==> all == seq![Condition::Account(1)],
        mailbox is Some ==> all == seq![Condition::Account(1), Condition::Mailbox(2)],
    ensures
        selected(all, values, kept) == (kept.account == account && (mailbox is Some
            ==> kept.mailbox == mailbox->0)),
{
    if selected(all, values, kept) {
        assert(meets(all[0], values, kept));
        if mailbox is Some {
            assert(meets(all[1], values, kept));
        }
    }
}

proof fn lemma_clauses(everywhere: Seq<Column>, sender: Seq<Column>, subject: Seq<Column>)
    requires
        everywhere == seq![Column::Subject, Column::FromName, Column::FromAddr, Column::Snippet],
        sender == seq![Column::FromName, Column::FromAddr],
        subject == seq![Column::Subject],
    ensures
        tests(Clause::Anywhere, everywhere),
        tests(Clause::Sender, sender),
        tests(Clause::Subject, subject),
{
    assert forall|n: nat|
        (#[trigger] clause_text(Clause::Anywhere, n)).take(5) == " AND "@ && reads_condition(
            clause_text(Clause::Anywhere, n).skip(5),
            Condition::AnyLike(over(everywhere, n)),
        ) by {
        which_columns_a_clause_tests(n);
        assert(over(everywhere, n) =~= seq![
            (Column::Subject, n),
            (Column::FromName, n),
            (Column::FromAddr, n),
            (Column::Snippet, n),
        ]);
    }
    assert forall|n: nat|
        (#[trigger] clause_text(Clause::Sender, n)).take(5) == " AND "@ && reads_condition(
            clause_text(Clause::Sender, n).skip(5),
            Condition::AnyLike(over(sender, n)),
        ) by {
        which_columns_a_clause_tests(n);
        assert(over(sender, n) =~= seq![(Column::FromName, n), (Column::FromAddr, n)]);
    }
    assert forall|n: nat|
        (#[trigger] clause_text(Clause::Subject, n)).take(5) == " AND "@ && reads_condition(
            clause_text(Clause::Subject, n).skip(5),
            Condition::AnyLike(over(subject, n)),
        ) by {
        which_columns_a_clause_tests(n);
        assert(over(subject, n) =~= seq![(Column::Subject, n)]);
    }
}

proof fn lemma_select()
    ensures
        select_text() == select_head() + ("account = ?"@ + dec(1)),
{
    reveal_strlit(
        "SELECT mailbox, uid, thread_id, from_name, from_addr, subject, date_ms,\n                    snippet, attachments\n             FROM messages WHERE account = ?1",
    );
    reveal_strlit(
        "SELECT mailbox, uid, thread_id, from_name, from_addr, subject, date_ms,\n                    snippet, attachments\n             FROM messages WHERE ",
    );
    reveal_strlit("account = ?");
    assert(dec(1) =~= seq!['1']);
    assert(select_text() =~= select_head() + ("account = ?"@ + dec(1)));
}

} // verus!
