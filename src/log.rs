use vstd::prelude::*;

use crate::text::{find_sep, lemma_next_sep, next_sep};

verus! {

/// The date of a timestamp: its first ten characters, `YYYY-MM-DD`
/// (the whole timestamp where it is shorter).
pub open spec fn date_of(t: Seq<char>) -> Seq<char> {
    if t.len() >= 10 {
        t.take(10)
    } else {
        t
    }
}

/// Whether a record holds a comma, so that it has at least the two fields
/// that a sighting needs.
pub open spec fn has_two_fields(line: Seq<char>) -> bool {
    next_sep(line, 0, ',') < line.len()
}

/// The first field of a record: the text before its first comma.
pub open spec fn cookie_field(line: Seq<char>) -> Seq<char> {
    line.take(next_sep(line, 0, ','))
}

/// The second field of a record: the text after its first comma, up to the
/// next comma or the end. Further fields are ignored.
pub open spec fn time_field(line: Seq<char>) -> Seq<char> {
    let k = next_sep(line, 0, ',');
    line.subrange(k + 1, next_sep(line, k + 1, ','))
}

/// The records of `s` whose timestamp falls on `date`, in their order.
pub open spec fn on_date(s: Seq<CookieLog>, date: Seq<char>) -> Seq<CookieLog> {
    s.filter(|c: CookieLog| date_of(c.utc_time@) == date)
}

/// Filtering by a date a second time changes nothing.
pub proof fn lemma_on_date_idempotent(s: Seq<CookieLog>, date: Seq<char>)
    ensures
        on_date(on_date(s, date), date) == on_date(s, date),
    decreases s.len(),
{
    let p = |c: CookieLog| date_of(c.utc_time@) == date;
    if s.len() == 0 {
        reveal(Seq::filter);
    } else {
        let init = s.drop_last();
        lemma_on_date_idempotent(init, date);
        assert(s =~= init.push(s.last()));
        init.lemma_filter_push(s.last(), p);
        if p(s.last()) {
            on_date(init, date).lemma_filter_push(s.last(), p);
        }
    }
}

/// Filtering a log whose records all fall on `date` by that date keeps it
/// whole.
pub proof fn lemma_on_date_single_date(s: Seq<CookieLog>, date: Seq<char>)
    requires
        forall|i: int| 0 <= i < s.len() ==> date_of(#[trigger] s[i].utc_time@) == date,
    ensures
        on_date(s, date) == s,
    decreases s.len(),
{
    if s.len() == 0 {
        reveal(Seq::filter);
    } else {
        let init = s.drop_last();
        assert forall|i: int| 0 <= i < init.len() implies date_of(#[trigger] init[i].utc_time@)
            == date by {
            assert(init[i] == s[i]);
        }
        lemma_on_date_single_date(init, date);
        assert(s =~= init.push(s.last()));
        init.lemma_filter_push(s.last(), |c: CookieLog| date_of(c.utc_time@) == date);
    }
}

/// A record that could not be parsed: `line` is its index among the records.
#[derive(Debug, PartialEq, Eq, Structural)]
pub struct MalformedRecord {
    pub line: usize,
}

/// One sighting of a cookie: its identifier and the UTC time it was seen at.
#[derive(Debug)]
pub struct CookieLog {
    pub cookie: String,
    pub utc_time: String,
}

impl CookieLog {
    /// A record of `cookie` seen at `utc_time`.
    pub fn new(cookie: String, utc_time: String) -> (r: CookieLog)
        ensures
            r.cookie@ == cookie@,
            r.utc_time@ == utc_time@,
    {
        CookieLog { cookie, utc_time }
    }

    /// The date on which the cookie was seen.
    pub fn get_date(&self) -> (r: String)
        ensures
            r@ == date_of(self.utc_time@),
    {
        let t = self.utc_time.as_str();
        let n = t.unicode_len();
        if n >= 10 {
            String::from_str(t.substring_char(0, 10))
        } else {
            self.utc_time.clone()
        }
    }

    /// Parses a record `<identifier>,<timestamp>[,...]`; `None` where it holds
    /// no comma.
    pub fn parse(line: &str) -> (r: Option<CookieLog>)
        ensures
            r is Some <==> has_two_fields(line@),
            r matches Some(c) ==> c.cookie@ == cookie_field(line@) && c.utc_time@ == time_field(
                line@,
            ),
    {
        let n = line.unicode_len();
        let k = find_sep(line, n, 0, ',');
        if k == n {
            return None;
        }
        proof {
            lemma_next_sep(line@, 0, ',');
        }
        let m = find_sep(line, n, k + 1, ',');
        proof {
            lemma_next_sep(line@, k + 1, ',');
        }
        let cookie = String::from_str(line.substring_char(0, k));
        let utc_time = String::from_str(line.substring_char(k + 1, m));
        Some(CookieLog::new(cookie, utc_time))
    }
}

/// Parses every record, in order. The first record that holds no comma
/// makes the whole parse fail, and the error gives its index.
pub fn get_cookie_logs(lines: Vec<String>) -> (r: Result<Vec<CookieLog>, MalformedRecord>)
    ensures
        r is Ok <==> forall|i: int| 0 <= i < lines.len() ==> has_two_fields(#[trigger] lines[i]@),
        r matches Ok(v) ==> v.len() == lines.len() && forall|i: int|
            0 <= i < lines.len() ==> (#[trigger] v[i]).cookie@ == cookie_field(lines[i]@)
                && v[i].utc_time@ == time_field(lines[i]@),
        r matches Err(e) ==> e.line < lines.len() && !has_two_fields(lines[e.line as int]@)
            && forall|j: int| 0 <= j < e.line ==> has_two_fields(#[trigger] lines[j]@),
{
    let mut logs: Vec<CookieLog> = Vec::new();
    let mut i: usize = 0;
    while i < lines.len()
        invariant
            i <= lines.len(),
            logs.len() == i,
            forall|j: int| 0 <= j < i ==> has_two_fields(#[trigger] lines[j]@),
            forall|j: int|
                0 <= j < i ==> (#[trigger] logs[j]).cookie@ == cookie_field(lines[j]@)
                    && logs[j].utc_time@ == time_field(lines[j]@),
        decreases lines.len() - i,
    {
        match CookieLog::parse(lines[i].as_str()) {
            Some(c) => logs.push(c),
            None => {
                return Err(MalformedRecord { line: i });
            },
        }
        i = i + 1;
    }
    Ok(logs)
}

/// Keeps the records whose date is `date`, in their order. The date of a
/// record is compared with `date` as text, character for character.
pub fn get_cookies_on_date(cookies: Vec<CookieLog>, date: &String) -> (r: Vec<CookieLog>)
    ensures
        r@ == on_date(cookies@, date@),
{
    let ghost all = cookies@;
    let mut kept: Vec<CookieLog> = Vec::new();
    for cookie in it: cookies
        invariant
            it.seq() == all,
            kept@ == on_date(all.take(it.index() as int), date@),
    {
        let ghost i = it.index() as int;
        proof {
            assert(all.take(i + 1) =~= all.take(i).push(cookie));
            all.take(i).lemma_filter_push(cookie, |c: CookieLog| date_of(c.utc_time@) == date@);
        }
        if cookie.get_date() == *date {
            kept.push(cookie);
        }
    }
    assert(all.take(all.len() as int) =~= all);
    kept
}

} // verus!
