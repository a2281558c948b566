//! The search query language, as a pure parser.
//!
//! Words must all appear; `from:`, `subject:`, `is:`, `has:` and `label:`
//! narrow; quotes keep a phrase together. An unknown prefix is not an error: it
//! is searched for as it was typed.

use vstd::prelude::*;

use crate::chars::{find, find_of, from_index, is_white, lemma_run_is, lower_of, lowered, pieces,
    spells, texts, to_chars, to_text, up_to, white, Class};

verus! {

/// A parsed query.
#[derive(Debug, Clone, PartialEq, Eq)]
pub struct Query {
    /// Words that must appear somewhere: sender, subject, or snippet.
    pub terms: Vec<String>,
    /// Words that must appear in the sender.
    pub from: Vec<String>,
    /// Words that must appear in the subject.
    pub subject: Vec<String>,
    pub unread: bool,
    pub starred: bool,
    pub has_attachment: bool,
    /// Keywords the message must carry.
    pub labels: Vec<String>,
}

/// A query, as contracts speak of it.
#[verifier::ext_equal]
pub struct Search {
    pub terms: Seq<Seq<char>>,
    pub from: Seq<Seq<char>>,
    pub subject: Seq<Seq<char>>,
    pub unread: bool,
    pub starred: bool,
    pub has_attachment: bool,
    pub labels: Seq<Seq<char>>,
}

pub open spec fn no_search() -> Search {
    Search {
        terms: Seq::empty(),
        from: Seq::empty(),
        subject: Seq::empty(),
        unread: false,
        starred: false,
        has_attachment: false,
        labels: Seq::empty(),
    }
}

impl Search {
    pub open spec fn empty(self) -> bool {
        &&& self.terms.len() == 0
        &&& self.from.len() == 0
        &&& self.subject.len() == 0
        &&& !self.unread
        &&& !self.starred
        &&& self.labels.len() == 0
        &&& !self.has_attachment
    }
}

impl Query {
    pub open spec fn view(&self) -> Search {
        Search {
            terms: texts(self.terms@),
            from: texts(self.from@),
            subject: texts(self.subject@),
            unread: self.unread,
            starred: self.starred,
            has_attachment: self.has_attachment,
            labels: texts(self.labels@),
        }
    }

    /// Is there nothing here to search for? An empty query must not be run: it
    /// matches everything.
    #[must_use]
    pub fn is_empty(&self) -> (r: bool)
        ensures
            r == self@.empty(),
    {
        self.terms.len() == 0 && self.from.len() == 0 && self.subject.len() == 0 && !self.unread
            && !self.starred && self.labels.len() == 0 && !self.has_attachment
    }

    /// Is there any text to match?
    #[must_use]
    pub fn has_text(&self) -> (r: bool)
        ensures
            r == (self@.terms.len() > 0 || self@.from.len() > 0 || self@.subject.len() > 0),
    {
        self.terms.len() > 0 || self.from.len() > 0 || self.subject.len() > 0
    }
}

impl Default for Query {
    fn default() -> (r: Self)
        ensures
            r@ == no_search(),
    {
        let r: Query = Query {
            terms: Vec::new(),
            from: Vec::new(),
            subject: Vec::new(),
            unread: false,
            starred: false,
            has_attachment: false,
            labels: Vec::new(),
        };
        assert(texts(r.terms@) =~= Seq::<Seq<char>>::empty());
        r
    }
}

// ---- tokens ----

/// How far an input has been cut into tokens.
pub struct Cut {
    pub tokens: Seq<Seq<char>>,
    pub current: Seq<char>,
    pub quoted: bool,
}

/// The input cut at whitespace that is not between quotes; quotes are dropped.
pub open spec fn cut(s: Seq<char>) -> Cut
    decreases s.len(),
{
    if s.len() == 0 {
        Cut { tokens: Seq::empty(), current: Seq::empty(), quoted: false }
    } else {
        let c = s.last();
        let before = cut(s.drop_last());
        if c == '"' {
            Cut { quoted: !before.quoted, ..before }
        } else if white(c) && !before.quoted {
            if before.current.len() > 0 {
                Cut {
                    tokens: before.tokens.push(before.current),
                    current: Seq::empty(),
                    ..before
                }
            } else {
                before
            }
        } else {
            Cut { current: before.current.push(c), ..before }
        }
    }
}

/// The tokens of an input: words, with quoted phrases kept together.
pub open spec fn tokens(s: Seq<char>) -> Seq<Seq<char>> {
    let c = cut(s);
    if c.current.len() > 0 {
        c.tokens.push(c.current)
    } else {
        c.tokens
    }
}

/// Splits on whitespace, keeping quoted phrases together. A prefix binds to the
/// phrase after it.
#[must_use]
pub fn tokenize(input: &str) -> (r: Vec<Vec<char>>)
    ensures
        pieces(r@) == tokens(input@),
{
    let v: Vec<char> = to_chars(input);
    let mut out: Vec<Vec<char>> = Vec::new();
    let mut current: Vec<char> = Vec::new();
    let mut quoted: bool = false;
    let mut i: usize = 0;
    assert(v@.take(0) =~= Seq::<char>::empty());
    assert(pieces(out@) =~= Seq::<Seq<char>>::empty());
    while i < v.len()
        invariant
            i <= v@.len(),
            pieces(out@) == cut(v@.take(i as int)).tokens,
            current@ == cut(v@.take(i as int)).current,
            quoted == cut(v@.take(i as int)).quoted,
        decreases v@.len() - i,
    {
        let c: char = v[i];
        proof {
            assert(v@.take(i + 1).drop_last() =~= v@.take(i as int));
            assert(v@.take(i + 1).last() == c);
        }
        if c == '"' {
            quoted = !quoted;
        } else if is_white(c) && !quoted {
            if current.len() > 0 {
                let ghost before = out@;
                let ghost word = current@;
                out.push(current);
                assert(pieces(out@) =~= pieces(before).push(word));
                current = Vec::new();
            }
        } else {
            current.push(c);
        }
        i = i + 1;
    }
    assert(v@.take(i as int) =~= v@);
    if current.len() > 0 {
        let ghost before = out@;
        let ghost word = current@;
        out.push(current);
        assert(pieces(out@) =~= pieces(before).push(word));
    }
    out
}

// ---- queries ----

impl Search {
    pub open spec fn with_term(self, token: Seq<char>) -> Search {
        Search { terms: self.terms.push(lowered(token)), ..self }
    }

    /// A query with one more token. A prefix with nothing behind it is being
    /// typed, and contributes nothing.
    pub open spec fn with_token(self, token: Seq<char>) -> Search {
        let at = find(token, Class::Is(':'));
        if at >= token.len() {
            self.with_term(token)
        } else {
            let prefix = lowered(token.take(at));
            let value = lowered(token.skip(at + 1));
            if value.len() == 0 {
                self
            } else if prefix == "from"@ {
                Search { from: self.from.push(value), ..self }
            } else if prefix == "label"@ || prefix == "keyword"@ || prefix == "tag"@ {
                Search { labels: self.labels.push(value), ..self }
            } else if prefix == "subject"@ {
                Search { subject: self.subject.push(value), ..self }
            } else if prefix == "is"@ && (value == "unread"@ || value == "new"@) {
                Search { unread: true, ..self }
            } else if prefix == "is"@ && (value == "starred"@ || value == "flagged"@) {
                Search { starred: true, ..self }
            } else if prefix == "has"@ && (value == "attachment"@ || value == "attachments"@
                || value == "file"@) {
                Search { has_attachment: true, ..self }
            } else {
                self.with_term(token)
            }
        }
    }
}

/// The query these tokens make.
pub open spec fn query_of(tokens: Seq<Seq<char>>) -> Search
    decreases tokens.len(),
{
    if tokens.len() == 0 {
        no_search()
    } else {
        query_of(tokens.drop_last()).with_token(tokens.last())
    }
}

fn push_lower(list: &mut Vec<String>, value: &[char])
    ensures
        texts(final(list)@) == texts(old(list)@).push(lowered(value@)),
{
    let ghost before = list@;
    list.push(to_text(&lower_of(value)));
    assert(texts(list@) =~= texts(before).push(lowered(value@)));
}

fn add_token(query: &mut Query, token: &Vec<char>)
    ensures
        final(query)@ == old(query)@.with_token(token@),
{
    match find_of(token, Class::Is(':')) {
        None => push_lower(&mut query.terms, token),
        Some(at) => {
            let value: Vec<char> = lower_of(from_index(token, at + 1));
            let prefix: Vec<char> = lower_of(up_to(token, at));
            proof {
                assert(lowered(value@) =~= value@) by {
                    assert forall|i: int| 0 <= i < value@.len() implies lowered(value@)[i]
                        == #[trigger] value@[i] by {
                        assert(value@[i] == crate::chars::lower(token@.skip(at + 1)[i]));
                    }
                }
            }
            if value.len() == 0 {
                return ;
            }
            if spells(&prefix, "from") {
                push_lower(&mut query.from, &value);
            } else if spells(&prefix, "label") || spells(&prefix, "keyword") || spells(
                &prefix,
                "tag",
            ) {
                push_lower(&mut query.labels, &value);
            } else if spells(&prefix, "subject") {
                push_lower(&mut query.subject, &value);
            } else if spells(&prefix, "is") && (spells(&value, "unread") || spells(&value, "new")) {
                query.unread = true;
            } else if spells(&prefix, "is") && (spells(&value, "starred") || spells(
                &value,
                "flagged",
            )) {
                query.starred = true;
            } else if spells(&prefix, "has") && (spells(&value, "attachment") || spells(
                &value,
                "attachments",
            ) || spells(&value, "file")) {
                query.has_attachment = true;
            } else {
                push_lower(&mut query.terms, token);
            }
        },
    }
}

/// Parses a query string. Never fails: every intermediate state of a search box
/// has to mean something.
#[must_use]
pub fn parse(input: &str) -> (r: Query)
    ensures
        r@ == query_of(tokens(input@)),
{
    let list: Vec<Vec<char>> = tokenize(input);
    let ghost all = pieces(list@);
    let mut query: Query = Query::default();
    let mut i: usize = 0;
    assert(all.take(0) =~= Seq::<Seq<char>>::empty());
    while i < list.len()
        invariant
            i <= list@.len(),
            all == pieces(list@),
            query@ == query_of(all.take(i as int)),
        decreases list@.len() - i,
    {
        proof {
            assert(all.take(i + 1).drop_last() =~= all.take(i as int));
            assert(all.take(i + 1).last() == list@[i as int]@);
        }
        add_token(&mut query, &list[i]);
        i = i + 1;
    }
    assert(all.take(i as int) =~= all);
    query
}

// ---- what a query is ----

proof fn lemma_cut_on(a: Seq<char>, b: Seq<char>)
    requires
        cut(a).current.len() == 0,
        !cut(a).quoted,
    ensures
        cut(a + b).tokens == cut(a).tokens + cut(b).tokens,
        cut(a + b).current == cut(b).current,
        cut(a + b).quoted == cut(b).quoted,
    decreases b.len(),
{
    if b.len() == 0 {
        assert(a + b =~= a);
        assert(cut(a).tokens + cut(b).tokens =~= cut(a).tokens);
        assert(cut(a).current =~= cut(b).current);
    } else {
        let t = b.drop_last();
        lemma_cut_on(a, t);
        assert((a + b).drop_last() =~= a + t);
        assert((a + b).last() == b.last());
        assert(cut(a).tokens + cut(t).tokens.push(cut(t).current) =~= (cut(a).tokens
            + cut(t).tokens).push(cut(t).current));
    }
}

proof fn lemma_cut_plain(s: Seq<char>)
    requires
        forall|i: int| 0 <= i < s.len() ==> (#[trigger] s[i]) != '"' && !white(s[i]),
    ensures
        cut(s).tokens.len() == 0,
        cut(s).current == s,
        !cut(s).quoted,
    decreases s.len(),
{
    if s.len() > 0 {
        let t = s.drop_last();
        assert forall|i: int| 0 <= i < t.len() implies (#[trigger] t[i]) != '"' && !white(t[i]) by {
            assert(t[i] == s[i]);
        }
        lemma_cut_plain(t);
        assert(s.last() == s[s.len() - 1]);
        assert(t.push(s.last()) =~= s);
    } else {
        assert(s =~= Seq::<char>::empty());
    }
}

proof fn lemma_cut_phrase(s: Seq<char>)
    requires
        forall|i: int| 0 <= i < s.len() ==> (#[trigger] s[i]) != '"',
    ensures
        cut(seq!['"'] + s).tokens.len() == 0,
        cut(seq!['"'] + s).current == s,
        cut(seq!['"'] + s).quoted,
    decreases s.len(),
{
    let q = seq!['"'] + s;
    if s.len() > 0 {
        let t = s.drop_last();
        assert forall|i: int| 0 <= i < t.len() implies (#[trigger] t[i]) != '"' by {
            assert(t[i] == s[i]);
        }
        lemma_cut_phrase(t);
        assert(q.drop_last() =~= seq!['"'] + t);
        assert(q.last() == s[s.len() - 1]);
        assert(t.push(s.last()) =~= s);
    } else {
        assert(q =~= seq!['"']);
        assert(q.drop_last() =~= Seq::<char>::empty());
        assert(cut(q.drop_last()).current =~= s);
    }
}

/// A word is one token, and so is a phrase between quotes, without them.
pub proof fn a_word_and_a_phrase_are_tokens(word: Seq<char>, phrase: Seq<char>)
    requires
        word.len() > 0,
        phrase.len() > 0,
        forall|i: int| 0 <= i < word.len() ==> (#[trigger] word[i]) != '"' && !white(word[i]),
        forall|i: int| 0 <= i < phrase.len() ==> (#[trigger] phrase[i]) != '"',
    ensures
        tokens(word) == seq![word],
        tokens(seq!['"'] + phrase + seq!['"']) == seq![phrase],
{
    lemma_cut_plain(word);
    assert(cut(word).tokens.push(word) =~= seq![word]);
    lemma_cut_phrase(phrase);
    let q = seq!['"'] + phrase + seq!['"'];
    assert(q.drop_last() =~= seq!['"'] + phrase);
    assert(q.last() == '"');
    assert(cut(q).tokens.push(phrase) =~= seq![phrase]);
}

/// White space outside quotes parts tokens: what stands on either side of it is cut as if it
/// stood alone.
pub proof fn white_space_parts_tokens(a: Seq<char>, space: char, b: Seq<char>)
    requires
        white(space),
        space != '"',
        !cut(a).quoted,
    ensures
        tokens(a + seq![space] + b) == tokens(a) + tokens(b),
{
    let front = a + seq![space];
    assert(front.drop_last() =~= a);
    assert(front.last() == space);
    assert(cut(front).current.len() == 0);
    assert(cut(front).tokens =~= tokens(a));
    lemma_cut_on(front, b);
    assert(tokens(front + b) =~= tokens(a) + tokens(b));
}

/// What a token with a prefix asks for. A prefix with nothing behind it asks for nothing;
/// one that nobody knows is searched for as it was typed.
pub proof fn what_a_prefix_asks_for(q: Search, prefix: Seq<char>, value: Seq<char>)
    requires
        forall|i: int| 0 <= i < prefix.len() ==> (#[trigger] prefix[i]) != ':',
    ensures
        ({
            let token = prefix + seq![':'] + value;
            let r = q.with_token(token);
            let p = lowered(prefix);
            let v = lowered(value);
            &&& value.len() == 0 ==> r == q
            &&& value.len() > 0 && p == "from"@ ==> r.from == q.from.push(v) && r.terms == q.terms
                && r.subject == q.subject && r.labels == q.labels
            &&& value.len() > 0 && p == "subject"@ ==> r.subject == q.subject.push(v) && r.terms
                == q.terms && r.from == q.from && r.labels == q.labels
            &&& value.len() > 0 && (p == "label"@ || p == "keyword"@ || p == "tag"@) ==> r.labels
                == q.labels.push(v) && r.terms == q.terms && r.from == q.from && r.subject
                == q.subject
            &&& p == "is"@ && (v == "unread"@ || v == "new"@) ==> r.unread && r.terms == q.terms
            &&& p == "is"@ && (v == "starred"@ || v == "flagged"@) ==> r.starred && r.terms
                == q.terms
            &&& p == "has"@ && (v == "attachment"@ || v == "attachments"@ || v == "file"@)
                ==> r.has_attachment && r.terms == q.terms
            &&& q.unread ==> r.unread
            &&& q.starred ==> r.starred
            &&& q.has_attachment ==> r.has_attachment
            &&& value.len() > 0 && p != "from"@ && p != "subject"@ && p != "label"@ && p
                != "keyword"@ && p != "tag"@ && p != "is"@ && p != "has"@ ==> r.terms
                == q.terms.push(lowered(token)) && r.from == q.from && r.subject == q.subject
                && r.labels == q.labels && r.unread == q.unread && r.starred == q.starred
                && r.has_attachment == q.has_attachment
        }),
{
    let token = prefix + seq![':'] + value;
    assert forall|j: int| 0 <= j < prefix.len() implies Class::Is(':').holds(#[trigger] token[j])
        == false by {
        assert(token[j] == prefix[j]);
    }
    assert(token[prefix.len() as int] == ':');
    lemma_run_is(token, Class::Is(':'), false, prefix.len() as int);
    assert(token.take(prefix.len() as int) =~= prefix);
    assert(token.skip((prefix.len() + 1) as int) =~= value);
    reveal_strlit("from");
    reveal_strlit("subject");
    reveal_strlit("label");
    reveal_strlit("keyword");
    reveal_strlit("tag");
    reveal_strlit("is");
    reveal_strlit("has");
    reveal_strlit("unread");
    reveal_strlit("new");
    reveal_strlit("starred");
    reveal_strlit("flagged");
    reveal_strlit("attachment");
    reveal_strlit("attachments");
    reveal_strlit("file");
    assert("from"@[0] == 'f' && "subject"@[0] == 's' && "label"@[0] == 'l' && "keyword"@[0] == 'k'
        && "tag"@[0] == 't' && "is"@[0] == 'i' && "has"@[0] == 'h');
    assert("unread"@[0] == 'u' && "new"@[0] == 'n' && "starred"@[0] == 's' && "flagged"@[0] == 'f');
    assert(lowered(value).len() == value.len());
}

/// Every token without a prefix is searched for, in lower case, and in the order typed.
pub proof fn every_bare_word_is_searched_for(list: Seq<Seq<char>>)
    requires
        forall|i: int, j: int|
            0 <= i < list.len() && 0 <= j < list[i].len() ==> (#[trigger] list[i][j]) != ':',
    ensures
        query_of(list).terms == list.map_values(|t: Seq<char>| lowered(t)),
        query_of(list).from.len() == 0,
        query_of(list).subject.len() == 0,
        query_of(list).labels.len() == 0,
        !query_of(list).unread && !query_of(list).starred && !query_of(list).has_attachment,
    decreases list.len(),
{
    let f = |t: Seq<char>| lowered(t);
    if list.len() > 0 {
        let t = list.drop_last();
        let last = list.last();
        assert forall|i: int, j: int| 0 <= i < t.len() && 0 <= j < t[i].len() implies (
        #[trigger] t[i][j]) != ':' by {
            assert(list[i][j] == t[i][j]);
        }
        every_bare_word_is_searched_for(t);
        assert forall|j: int| 0 <= j < last.len() implies Class::Is(':').holds(#[trigger] last[j])
            == false by {
            assert(list[list.len() - 1][j] != ':');
        }
        lemma_run_is(last, Class::Is(':'), false, last.len() as int);
        assert(list.map_values(f) =~= t.map_values(f).push(lowered(last)));
    } else {
        assert(list.map_values(f) =~= Seq::<Seq<char>>::empty());
    }
}

/// One token after another: what tokens ask for together is what the last of them adds to
/// what the others ask for, and nothing asked for is forgotten.
pub proof fn tokens_add_up(list: Seq<Seq<char>>, token: Seq<char>)
    ensures
        query_of(list.push(token)) == query_of(list).with_token(token),
        query_of(seq![]) == no_search(),
{
    assert(list.push(token).drop_last() =~= list);
    assert(Seq::<Seq<char>>::empty().len() == 0);
}

} // verus!
