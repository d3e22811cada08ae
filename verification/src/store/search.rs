//! Full-text search over the text of the entries.
//!
//! The text lives in an FTS5 table beside the index. Keeping the table in step
//! costs nothing while entries come and go: an entry that changed is only
//! noted, and the table catches up when somebody searches.

use crate::text;
use vstd::prelude::*;

verus! {

// ---------------------------------------------------------------------------
// The full-text table
// ---------------------------------------------------------------------------

/// A connection to an SQLite database, here one in memory holding one
/// full-text table.
#[verifier::external_type_specification]
#[verifier::external_body]
pub struct ExConnection(rusqlite::Connection);

/// What SQLite answers when it refuses a statement.
#[verifier::external_type_specification]
#[verifier::external_body]
pub struct ExError(rusqlite::Error);

/// The texts a full-text table holds, by row.
pub uninterp spec fn bodies(table: rusqlite::Connection) -> Map<i64, Seq<char>>;

/// Whether a text matches an FTS5 expression.
pub uninterp spec fn fts5_matches(expression: Seq<char>, body: Seq<char>) -> bool;

/// Whether FTS5 takes an expression for one that text has to match.
pub open spec fn asks_for_text(expression: Seq<char>) -> bool {
    expression.len() == 0 || expression[0] != '*'
}

/// `Connection::open_in_memory` and the statement that creates the table: the
/// new table holds nothing. Nothing is said of when SQLite refuses.
#[verifier::external_body]
fn open_table() -> (opened: Result<rusqlite::Connection, rusqlite::Error>)
    ensures
        opened matches Ok(table) ==> (bodies(table) == Map::<i64, Seq<char>>::empty()),
{
    let table = rusqlite::Connection::open_in_memory()?;
    table.execute_batch("CREATE VIRTUAL TABLE entry_fts USING fts5(body)")?;
    Ok(table)
}

/// `Connection::execute` of an insert adds one row to the table where it
/// succeeds. Nothing is said of the table where it does not.
#[verifier::external_body]
fn insert_body(table: &mut rusqlite::Connection, id: i64, body: &str) -> (done: Result<
    usize,
    rusqlite::Error,
>)
    ensures
        done is Ok ==> bodies(*final(table)) == bodies(*old(table)).insert(id, body@),
{
    table.execute("INSERT INTO entry_fts (rowid, body) VALUES (?1, ?2)", (id, body))
}

/// `Connection::execute` of a delete by row takes that row out of the table
/// where it succeeds. Nothing is said of the table where it does not.
#[verifier::external_body]
fn delete_body(table: &mut rusqlite::Connection, id: i64) -> (done: Result<usize, rusqlite::Error>)
    ensures
        done is Ok ==> bodies(*final(table)) == bodies(*old(table)).remove(id),
{
    table.execute("DELETE FROM entry_fts WHERE rowid = ?1", (id,))
}

/// `Connection::prepare` and `Statement::query_map` of a `MATCH` query list
/// exactly the rows whose text matches, which depends on the expression and the
/// text alone. Nothing is said of when SQLite refuses, such as on an expression
/// that does not parse. FTS5 takes an expression that starts with an asterisk
/// for a question about the table itself and not about any text.
#[verifier::external_body]
fn matching_rows(table: &rusqlite::Connection, expression: &str) -> (found: Result<
    Vec<i64>,
    rusqlite::Error,
>)
    requires
        asks_for_text(expression@),
    ensures
        found matches Ok(rows) ==> forall|id: i64| #[trigger]
            rows@.contains(id) <==> bodies(*table).dom().contains(id) && fts5_matches(
                expression@,
                bodies(*table)[id],
            ),
{
    let mut statement = table.prepare("SELECT rowid FROM entry_fts WHERE body MATCH ?1")?;
    let rows = statement.query_map((expression,), |row| row.get(0))?;
    rows.collect()
}

/// What SQLite says about a refusal: the text `Display` gives the error.
#[verifier::external_body]
fn refusal_text(error: &rusqlite::Error) -> String {
    error.to_string()
}

// ---------------------------------------------------------------------------
// What the user typed
// ---------------------------------------------------------------------------

/// Whether a character is part of a search token.
pub open spec fn token_char(c: char) -> bool {
    text::alphanumeric(c) || c == '_'
}

/// The search tokens in a text.
pub open spec fn tokens(typed: Seq<char>) -> Seq<Seq<char>> {
    text::runs(typed, |c: char| token_char(c))
}

/// Each token as FTS5 is asked for it: quoted, the last one as a prefix.
pub open spec fn terms(tokens: Seq<Seq<char>>) -> Seq<Seq<char>> {
    Seq::new(
        tokens.len(),
        |i: int|
            if i == tokens.len() - 1 {
                seq!['"'] + tokens[i] + seq!['"', '*']
            } else {
                seq!['"'] + tokens[i] + seq!['"']
            },
    )
}

/// The FTS5 expression for what the user typed; nothing where no token was.
pub open spec fn expression(typed: Seq<char>) -> Seq<char> {
    text::joined(terms(tokens(typed)), " AND "@)
}

/// No token holds a quote, so quoting a token always delimits it.
pub proof fn tokens_hold_no_quote(typed: Seq<char>)
    ensures
        forall|i: int, j: int|
            0 <= i < tokens(typed).len() && 0 <= j < tokens(typed)[i].len()
                ==> #[trigger] tokens(typed)[i][j] != '"',
        forall|i: int| 0 <= i < tokens(typed).len() ==> (#[trigger] tokens(typed)[i]).len() > 0,
{
    let keep = |c: char| token_char(c);
    text::runs_are_kept(typed, keep);
    assert forall|i: int, j: int|
        0 <= i < tokens(typed).len() && 0 <= j < tokens(typed)[i].len() implies #[trigger] tokens(
        typed,
    )[i][j] != '"' by {
        assert(keep(text::runs(typed, keep)[i][j]));
    }
}

/// A search for no token is no search.
pub proof fn only_tokens_are_searched_for(typed: Seq<char>)
    ensures
        expression(typed).len() == 0 <==> tokens(typed).len() == 0,
{
    let all = terms(tokens(typed));
    if all.len() == 1 {
        assert(expression(typed) == all[0]);
    } else if all.len() > 1 {
        reveal_strlit(" AND ");
        assert(expression(typed).len() >= " AND "@.len());
    }
}

/// What is searched for is always quoted, so the user's own words never decide
/// what sort of question FTS5 is asked.
pub proof fn a_search_asks_for_text(typed: Seq<char>)
    ensures
        expression(typed).len() > 0 ==> expression(typed)[0] == '"',
        asks_for_text(expression(typed)),
{
    let all = terms(tokens(typed));
    if all.len() > 0 {
        assert(all[0][0] == '"');
        text::joined_begins(all, " AND "@);
        assert(expression(typed).take(all[0].len() as int)[0] == '"');
    }
}

fn token_chars(typed: &str) -> (found: Vec<Vec<char>>)
    ensures
        Seq::new(found@.len(), |i: int| found@[i]@) == tokens(typed@),
{
    let ghost keep = |c: char| token_char(c);
    let chars = text::chars_of(typed);
    let mut found: Vec<Vec<char>> = Vec::new();
    let mut current: Vec<char> = Vec::new();
    let mut i: usize = 0;
    // The run being read is held apart until it ends.
    while i < chars.len()
        invariant
            i <= chars.len(),
            chars@ == typed@,
            keep == (|c: char| token_char(c)),
            current@.len() > 0 <==> (i > 0 && keep(chars@[i - 1])),
            Seq::new(found@.len(), |k: int| found@[k]@) + (if current@.len() > 0 {
                seq![current@]
            } else {
                Seq::empty()
            }) == text::runs(chars@.take(i as int), keep),
        decreases chars.len() - i,
    {
        let c = chars[i];
        let ghost seen = chars@.take(i as int);
        let ghost next = chars@.take(i as int + 1);
        let ghost held = Seq::new(found@.len(), |k: int| found@[k]@);
        let ghost run = current@;
        proof {
            assert(next.drop_last() =~= seen);
            assert(next.last() == c);
            if i > 0 {
                assert(next[next.len() - 2] == chars@[i - 1]);
            }
        }
        if c.is_alphanumeric() || c == '_' {
            current.push(c);
            proof {
                if run.len() > 0 {
                    assert(text::runs(seen, keep) =~= held.push(run));
                    assert(held + seq![current@] =~= text::runs(seen, keep).update(
                        held.len() as int,
                        run.push(c),
                    ));
                } else {
                    assert(text::runs(seen, keep) =~= held);
                    assert(current@ =~= seq![c]);
                    assert(held + seq![current@] =~= text::runs(seen, keep).push(seq![c]));
                }
            }
        } else if current.len() > 0 {
            found.push(current);
            current = Vec::new();
            assert(Seq::new(found@.len(), |k: int| found@[k]@) =~= held.push(run));
            assert(text::runs(seen, keep) =~= held.push(run));
        }
        i += 1;
    }
    assert(chars@.take(chars@.len() as int) =~= chars@);
    if current.len() > 0 {
        let ghost held = Seq::new(found@.len(), |k: int| found@[k]@);
        let ghost run = current@;
        found.push(current);
        assert(Seq::new(found@.len(), |k: int| found@[k]@) =~= held.push(run));
        assert(held + seq![run] =~= held.push(run));
    } else {
        assert(Seq::new(found@.len(), |k: int| found@[k]@) =~= tokens(typed@));
    }
    found
}

/// Turns what the user typed into an FTS5 expression.
///
/// Every token is quoted, so punctuation the user typed is searched for rather
/// than interpreted as FTS5 syntax — an unquoted `"` or `*` would otherwise
/// turn a search into a parse error. The last token gets a prefix match, which
/// is what makes the list narrow as the user is still typing.
pub fn fts_query(typed: &str) -> (query: String)
    ensures
        query@ == expression(typed@),
{
    let found = token_chars(typed);
    let ghost all = terms(tokens(typed@));
    let mut query = String::new();
    let mut i: usize = 0;
    while i < found.len()
        invariant
            i <= found.len(),
            all == terms(tokens(typed@)),
            Seq::new(found@.len(), |k: int| found@[k]@) == tokens(typed@),
            query@ == text::joined(all.take(i as int), " AND "@),
        decreases found.len() - i,
    {
        proof {
            assert(tokens(typed@)[i as int] == found@[i as int]@);
            text::joined_added(all.take(i as int), " AND "@, all[i as int]);
            assert(all.take(i as int + 1) =~= all.take(i as int).push(all[i as int]));
        }
        if i > 0 {
            text::push_text(&mut query, " AND ");
        }
        query.push('"');
        let token = text::string_of(&found[i]);
        text::push_text(&mut query, token.as_str());
        query.push('"');
        if i + 1 == found.len() {
            query.push('*');
        }
        assert(query@ =~= text::joined(all.take(i as int + 1), " AND "@));
        i += 1;
    }
    assert(all.take(all.len() as int) =~= all);
    query
}

// ---------------------------------------------------------------------------
// The table beside an index
// ---------------------------------------------------------------------------

/// A text by id, where there is one.
pub open spec fn held(map: Map<i64, Seq<char>>, id: i64) -> Option<Seq<char>> {
    if map.dom().contains(id) {
        Some(map[id])
    } else {
        None
    }
}

/// The full-text table, and the entries it has yet to catch up with.
pub struct Search {
    table: Option<rusqlite::Connection>,
    stale: Vec<i64>,
}

impl Search {
    /// What the table holds.
    pub closed spec fn rows(self) -> Map<i64, Seq<char>> {
        match self.table {
            Some(table) => bodies(table),
            None => Map::empty(),
        }
    }

    /// The entries the table may be wrong about.
    pub closed spec fn behind(self) -> Seq<i64> {
        self.stale@
    }

    /// Whether the table is right about every entry it is not known to be
    /// behind on, where `wanted` says what it should hold.
    pub open spec fn follows(self, wanted: spec_fn(i64) -> Option<Seq<char>>) -> bool {
        forall|id: i64|
            !self.behind().contains(id) ==> #[trigger] held(self.rows(), id) == wanted(id)
    }

    pub fn new() -> (search: Search)
        ensures
            search.rows() == Map::<i64, Seq<char>>::empty(),
            search.behind() == Seq::<i64>::empty(),
    {
        Search { table: None, stale: Vec::new() }
    }

    /// Notes that an entry came, went or changed its text.
    pub fn mark(&mut self, id: i64)
        ensures
            final(self).rows() == old(self).rows(),
            final(self).behind() == old(self).behind().push(id),
    {
        self.stale.push(id);
    }

    /// An entry the table has to catch up with, if there is one.
    pub fn next_stale(&self) -> (id: Option<i64>)
        ensures
            match id {
                Some(id) => self.behind().len() > 0 && id == self.behind().last(),
                None => self.behind().len() == 0,
            },
    {
        if self.stale.len() == 0 {
            None
        } else {
            Some(self.stale[self.stale.len() - 1])
        }
    }

    /// Makes the table hold the text the newest noted entry has now. Where
    /// SQLite refuses, the table is given up and the entry stays noted.
    pub fn refresh(&mut self, body: Option<&str>) -> (done: Result<(), String>)
        requires
            old(self).behind().len() > 0,
        ensures
            match done {
                Ok(()) => {
                    let id = old(self).behind().last();
                    &&& final(self).behind() == old(self).behind().drop_last()
                    &&& held(final(self).rows(), id) == text::optional_slice(body)
                    &&& forall|other: i64|
                        other != id ==> #[trigger] held(final(self).rows(), other) == held(
                            old(self).rows(),
                            other,
                        )
                },
                Err(_) => {
                    &&& final(self).behind() == old(self).behind()
                    &&& final(self).rows() == Map::<i64, Seq<char>>::empty()
                },
            },
    {
        let id: i64 = self.stale[self.stale.len() - 1];
        let mut table = match self.table.take() {
            Some(table) => table,
            None => match open_table() {
                Ok(table) => table,
                Err(error) => return Err(refusal_text(&error)),
            },
        };
        match delete_body(&mut table, id) {
            Ok(_) => {},
            Err(error) => return Err(refusal_text(&error)),
        }
        if let Some(body) = body {
            match insert_body(&mut table, id, body) {
                Ok(_) => {},
                Err(error) => return Err(refusal_text(&error)),
            }
        }
        self.table = Some(table);
        self.stale.pop();
        Ok(())
    }

    /// The rows whose text matches an expression. Where SQLite refuses, the table
    /// is given up.
    pub fn matching(&mut self, expression: &str) -> (ids: Result<Vec<i64>, String>)
        requires
            asks_for_text(expression@),
        ensures
            final(self).behind() == old(self).behind(),
            match ids {
                Ok(ids) => {
                    &&& final(self).rows() == old(self).rows()
                    &&& forall|id: i64| #[trigger]
                        ids@.contains(id) <==> (held(old(self).rows(), id) matches Some(body)
                            && fts5_matches(expression@, body))
                },
                Err(_) => final(self).rows() == Map::<i64, Seq<char>>::empty(),
            },
    {
        let table = match self.table.take() {
            Some(table) => table,
            None => match open_table() {
                Ok(table) => table,
                Err(error) => return Err(refusal_text(&error)),
            },
        };
        match matching_rows(&table, expression) {
            Ok(ids) => {
                self.table = Some(table);
                Ok(ids)
            },
            Err(error) => Err(refusal_text(&error)),
        }
    }
}

// ---------------------------------------------------------------------------
// What a search is made of
// ---------------------------------------------------------------------------

/// Every letter, digit and underscore that was typed is searched for: put one
/// after the other, the tokens are what was typed with all other characters
/// left out.
pub proof fn all_that_was_typed_is_searched_for(typed: Seq<char>)
    ensures
        tokens(typed).flatten() == typed.filter(
            |c: char|
                {
                    ||| 'A' <= c <= 'Z'
                    ||| 'a' <= c <= 'z'
                    ||| '0' <= c <= '9'
                    ||| c == '_'
                    ||| (c as u32) >= 0x80 && text::wide_alphanumeric(c)
                },
        ),
        forall|i: int| 0 <= i < tokens(typed).len() ==> (#[trigger] tokens(typed)[i]).len() > 0,
{
    let keep = |c: char| token_char(c);
    let kept = |c: char|
        {
            ||| 'A' <= c <= 'Z'
            ||| 'a' <= c <= 'z'
            ||| '0' <= c <= '9'
            ||| c == '_'
            ||| (c as u32) >= 0x80 && text::wide_alphanumeric(c)
        };
    text::runs_hold_all_that_is_kept(typed, keep);
    text::runs_are_kept(typed, keep);
    assert(keep =~= kept);
}

/// A token ends only where a character comes that is no letter, digit or
/// underscore, and there it does end.
pub proof fn a_token_reaches_as_far_as_it_can(head: Seq<char>, between: char, rest: Seq<char>)
    requires
        !('A' <= between <= 'Z'),
        !('a' <= between <= 'z'),
        !('0' <= between <= '9'),
        between != '_',
        (between as u32) < 0x80 || !text::wide_alphanumeric(between),
    ensures
        tokens(head + seq![between] + rest) == tokens(head) + tokens(rest),
        head.len() > 0 && (forall|i: int|
            0 <= i < head.len() ==> {
                ||| 'A' <= #[trigger] head[i] <= 'Z'
                ||| 'a' <= head[i] <= 'z'
                ||| '0' <= head[i] <= '9'
                ||| head[i] == '_'
                ||| (head[i] as u32) >= 0x80 && text::wide_alphanumeric(head[i])
            }) ==> tokens(head) == seq![head],
        tokens(Seq::empty()) == Seq::<Seq<char>>::empty(),
{
    let keep = |c: char| token_char(c);
    text::runs_end_where_a_character_is_not_kept(head, between, rest, keep);
}

/// While a word is being typed it is searched for as the beginning of a word,
/// behind the whole words typed before it; a search for one word is that word.
pub proof fn the_last_word_is_searched_for_as_a_prefix(typed: Seq<char>, word: Seq<char>)
    requires
        tokens(typed).len() > 0,
        word == tokens(typed).last(),
    ensures
        tokens(typed).len() == 1 ==> expression(typed) == seq!['"'] + word + seq!['"', '*'],
        forall|head: Seq<char>| #[trigger]
            tokens(head) == tokens(typed).drop_last() && tokens(head).len() > 0 ==> expression(typed)
                == expression(head).drop_last() + " AND "@ + (seq!['"'] + word + seq!['"', '*']),
{
    let all = tokens(typed);
    let asked = terms(all);
    assert(asked.last() == seq!['"'] + word + seq!['"', '*']);
    assert forall|head: Seq<char>| #[trigger]
        tokens(head) == tokens(typed).drop_last() && tokens(head).len()
            > 0 implies expression(typed) == expression(head).drop_last() + " AND "@ + (seq!['"']
        + word + seq!['"', '*']) by {
        let before = tokens(head);
        let whole = Seq::new(before.len(), |i: int| seq!['"'] + before[i] + seq!['"']);
        let last = whole.last();
        assert(terms(before) =~= whole.update(whole.len() - 1, last.push('*'))) by {
            assert(last.push('*') =~= seq!['"'] + before.last() + seq!['"', '*']);
        }
        text::joined_extended(whole, " AND "@, '*');
        assert(expression(head).drop_last() =~= text::joined(whole, " AND "@));
        assert(asked =~= whole.push(asked.last())) by {
            assert forall|i: int| 0 <= i < before.len() implies #[trigger] asked[i] == whole[i] by {
                assert(before[i] == all[i]);
            }
        }
        text::joined_added(whole, " AND "@, asked.last());
    }
}

/// What is searched for goes by the tokens alone, whatever stands between them.
pub proof fn what_parts_the_words_is_not_searched_for(typed: Seq<char>, other: Seq<char>)
    ensures
        tokens(typed) == tokens(other) ==> expression(typed) == expression(other),
        tokens(typed).len() == 0 <==> expression(typed).len() == 0,
{
    only_tokens_are_searched_for(typed);
}

} // verus!
