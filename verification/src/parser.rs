use crate::record::{texts, views_of, Item, ItemView};
use std::collections::VecDeque;
use vstd::prelude::*;
use vstd::string::StrSliceExecFns;
use vstd::string::StringExecFns;

verus! {

/// Splitting a line of text on the ASCII space character, exactly as
/// splitting on a one-character separator works in Rust: adjacent separators
/// and separators at either end produce empty tokens, and a text without any
/// separator is one token (so the empty text is one empty token).
pub open spec fn split_sp(s: Seq<char>) -> Seq<Seq<char>>
    decreases s.len(),
{
    if s.len() == 0 {
        seq![Seq::<char>::empty()]
    } else if s[0] == ' ' {
        seq![Seq::<char>::empty()] + split_sp(s.drop_first())
    } else {
        let rest = split_sp(s.drop_first());
        seq![seq![s[0]] + rest[0]] + rest.drop_first()
    }
}

/// A text without any space is a single token.
proof fn lemma_split_no_space(s: Seq<char>)
    requires
        forall|c: int| 0 <= c < s.len() ==> s[c] != ' ',
    ensures
        split_sp(s) == seq![s],
    decreases s.len(),
{
    if s.len() == 0 {
        assert(split_sp(s) =~~= seq![s]);
    } else {
        lemma_split_no_space(s.drop_first());
        assert(seq![s[0]] + s.drop_first() =~= s);
        assert(split_sp(s) =~~= seq![s]);
    }
}

/// Splitting at the first space: a space-free prefix becomes one token and
/// the rest is split on its own.
proof fn lemma_split_at_space(a: Seq<char>, b: Seq<char>)
    requires
        forall|c: int| 0 <= c < a.len() ==> a[c] != ' ',
    ensures
        split_sp(a + seq![' '] + b) == seq![a] + split_sp(b),
    decreases a.len(),
{
    let s = a + seq![' '] + b;
    if a.len() == 0 {
        assert(s[0] == ' ');
        assert(s.drop_first() =~= b);
        assert(split_sp(s) =~~= seq![a] + split_sp(b));
    } else {
        assert(s[0] == a[0]);
        assert(s.drop_first() =~= a.drop_first() + seq![' '] + b);
        lemma_split_at_space(a.drop_first(), b);
        let rest = split_sp(s.drop_first());
        assert(rest == seq![a.drop_first()] + split_sp(b));
        assert(seq![a[0]] + rest[0] =~= a);
        assert(rest.drop_first() =~= split_sp(b));
        assert(split_sp(s) =~~= seq![a] + split_sp(b));
    }
}

/// Split a line into its space-delimited tokens.
#[verifier::loop_isolation(false)]
fn split_spaces(line: &str) -> (toks: Vec<String>)
    ensures
        texts(toks@) == split_sp(line@),
{
    let mut toks: Vec<String> = Vec::new();
    let len: usize = line.unicode_len();
    let mut start: usize = 0;
    let mut i: usize = 0;
    proof {
        assert(line@.skip(0) =~= line@);
        assert(texts(toks@) =~= Seq::<Seq<char>>::empty());
        assert(Seq::<Seq<char>>::empty() + split_sp(line@) =~= split_sp(line@));
    }
    while i < len
        invariant
            start <= i <= len,
            forall|c: int| start <= c < i ==> line@[c] != ' ',
            split_sp(line@) == texts(toks@) + split_sp(line@.skip(start as int)),
        decreases len - i,
    {
        let c: char = line.get_char(i);
        if c == ' ' {
            let ghost cur = line@.subrange(start as int, i as int);
            let ghost old_toks = toks@;
            let tok: String = String::from_str(line.substring_char(start, i));
            toks.push(tok);
            proof {
                assert(line@.skip(start as int) =~= cur + seq![' '] + line@.skip(i as int + 1));
                lemma_split_at_space(cur, line@.skip(i as int + 1));
                assert(texts(toks@) =~= texts(old_toks) + seq![cur]);
                assert(texts(old_toks) + (seq![cur] + split_sp(line@.skip(i as int + 1))) =~= (
                texts(old_toks) + seq![cur]) + split_sp(line@.skip(i as int + 1)));
            }
            start = i + 1;
        }
        i += 1;
    }
    let ghost cur = line@.subrange(start as int, len as int);
    let ghost old_toks = toks@;
    let tok: String = String::from_str(line.substring_char(start, len));
    toks.push(tok);
    proof {
        assert(line@.skip(start as int) =~= cur);
        lemma_split_no_space(cur);
        assert(texts(toks@) =~= texts(old_toks) + seq![cur]);
        assert(texts(old_toks) + seq![cur] =~= split_sp(line@));
    }
    toks
}

/// Why a log line was rejected.
#[derive(Clone, Copy, Debug, PartialEq, Eq, Structural)]
pub enum MalformedReason {
    /// Fewer than five space-delimited tokens: no timestamp fields to read.
    MissingFields,
    /// The two timestamp tokens do not form a valid bracketed date.
    InvalidTimestampFormat,
}

/// Mathematical model of a [`MalformedLogLine`].
pub ghost struct MalformedView {
    pub line: Seq<char>,
    pub reason: MalformedReason,
}

/// A log line that could not be parsed: the offending line and the reason.
#[derive(Debug)]
pub struct MalformedLogLine {
    pub line: String,
    pub reason: MalformedReason,
}

impl View for MalformedLogLine {
    type V = MalformedView;

    open spec fn view(&self) -> MalformedView {
        MalformedView { line: self.line@, reason: self.reason }
    }
}

/// The timestamp of the string "<first> <second>" under a chrono format, in
/// Unix seconds (converted to `u64` with two's-complement wraparound for
/// instants before 1970), or nothing when the string does not match the
/// format. Left uninterpreted: what chrono accepts for a format string takes
/// pages to state, but depends on the two strings alone.
pub uninterp spec fn chrono_unix_ts(s: Seq<char>, fmt: Seq<char>) -> Option<u64>;

/// Relies on chrono's `DateTime::parse_from_str` and `DateTime::timestamp`:
/// parsing a string against a format either yields a `DateTime` whose Unix
/// second count is a pure function of the two strings, or fails, again
/// depending on the two strings alone. The joined argument "<first> <second>"
/// makes the result a function of the pieces.
#[verifier::external_body]
fn parse_unix_ts(first: &str, second: &str, fmt: &str) -> (r: Option<u64>)
    ensures
        r == chrono_unix_ts(first@ + seq![' '] + second@, fmt@),
{
    match chrono::DateTime::parse_from_str(&format!("{} {}", first, second), fmt) {
        Ok(dt) => Some(dt.timestamp() as u64),
        Err(_) => None,
    }
}

/// The chrono format the timestamp tokens are parsed against:
/// a bracketed `day/month-abbreviation/year:time numeric-offset` date.
pub open spec fn ts_format() -> Seq<char> {
    "[%d/%b/%Y:%H:%M:%S %z]"@
}

/// The text whose parse gives a line its timestamp: tokens three and four
/// (zero-based) joined by one space — the bracketed date and offset fields of
/// the common log format.
pub open spec fn ts_text(line: Seq<char>) -> Seq<char> {
    split_sp(line)[3] + seq![' '] + split_sp(line)[4]
}

/// The timestamp key of a line, when it has one.
pub open spec fn line_key(line: Seq<char>) -> Option<u64> {
    chrono_unix_ts(ts_text(line), ts_format())
}

/// What parsing one line yields: `Ok(None)` for an empty line (skipped),
/// `Ok(Some(record))` for a line with a readable timestamp, and otherwise
/// the error naming the line and the reason.
pub open spec fn parse_line(line: Seq<char>) -> Result<Option<ItemView>, MalformedView> {
    if line.len() == 0 {
        Ok(None)
    } else if split_sp(line).len() < 5 {
        Err(MalformedView { line, reason: MalformedReason::MissingFields })
    } else {
        match line_key(line) {
            Some(k) => Ok(Some(ItemView { data: line, key: k })),
            None => Err(MalformedView { line, reason: MalformedReason::InvalidTimestampFormat }),
        }
    }
}

/// What parsing a whole source yields: the records of its lines in order,
/// empty lines skipped, or the error of the first malformed line (fail-fast:
/// one bad line aborts the batch).
pub open spec fn parse_all(lines: Seq<Seq<char>>) -> Result<Seq<ItemView>, MalformedView>
    decreases lines.len(),
{
    if lines.len() == 0 {
        Ok(Seq::empty())
    } else {
        match parse_line(lines[0]) {
            Err(e) => Err(e),
            Ok(opt) => match parse_all(lines.drop_first()) {
                Err(e) => Err(e),
                Ok(rest) => Ok(
                    match opt {
                        Some(iv) => seq![iv] + rest,
                        None => rest,
                    },
                ),
            },
        }
    }
}

/// Records already parsed, joined with the outcome of the lines still ahead.
pub open spec fn combine(done: Seq<ItemView>, rest: Result<Seq<ItemView>, MalformedView>) -> Result<
    Seq<ItemView>,
    MalformedView,
> {
    match rest {
        Ok(r) => Ok(done + r),
        Err(e) => Err(e),
    }
}

/// Parse every line of one source into a timestamped record, in input order.
///
/// Empty lines produce no record. Any other line must have at least five
/// space-delimited tokens, of which the fourth and fifth joined by a space
/// must form a bracketed common-log-format date: the record then carries the
/// unmodified line and that date's Unix seconds as its key. The first line
/// that breaks either rule aborts the batch with [`MalformedLogLine`] naming
/// the line and the reason. No sorting happens here: the records come out in
/// the order the lines went in.
#[verifier::loop_isolation(false)]
pub fn parse_logs(lines: VecDeque<String>) -> (r: Result<VecDeque<Item>, MalformedLogLine>)
    ensures
        (match r {
            Ok(items) => parse_all(texts(lines@)) == Ok::<Seq<ItemView>, MalformedView>(
                views_of(items@),
            ),
            Err(e) => parse_all(texts(lines@)) == Err::<Seq<ItemView>, MalformedView>(e@),
        }),
{
    let ghost all = texts(lines@);
    let mut items: VecDeque<Item> = VecDeque::new();
    let n: usize = lines.len();
    let mut i: usize = 0;
    proof {
        assert(all.skip(0) =~= all);
        assert(views_of(items@) =~= Seq::<ItemView>::empty());
        assert(Seq::<ItemView>::empty() + parse_all(all)->Ok_0 =~= parse_all(all)->Ok_0);
    }
    while i < n
        invariant
            i <= n,
            parse_all(all) == combine(views_of(items@), parse_all(all.skip(i as int))),
        decreases n - i,
    {
        let line: &String = &lines[i];
        let ghost suffix = all.skip(i as int);
        proof {
            assert(suffix[0] == line@);
            assert(suffix.drop_first() =~= all.skip(i as int + 1));
        }
        if !line.as_str().is_empty() {
            let toks: Vec<String> = split_spaces(line.as_str());
            if toks.len() < 5 {
                let e = MalformedLogLine {
                    line: line.clone(),
                    reason: MalformedReason::MissingFields,
                };
                proof {
                    assert(parse_line(line@) == Err::<Option<ItemView>, MalformedView>(e@));
                }
                return Err(e);
            }
            let key_opt: Option<u64> = parse_unix_ts(
                toks[3].as_str(),
                toks[4].as_str(),
                "[%d/%b/%Y:%H:%M:%S %z]",
            );
            proof {
                assert(toks@[3]@ == split_sp(line@)[3]);
                assert(toks@[4]@ == split_sp(line@)[4]);
                assert(key_opt == line_key(line@));
            }
            match key_opt {
                Some(key) => {
                    let ghost old_items = items@;
                    let item: Item = Item::new(line.clone(), key);
                    items.push_back(item);
                    proof {
                        let iv = ItemView { data: line@, key };
                        assert(parse_line(line@) == Ok::<Option<ItemView>, MalformedView>(
                            Some(iv),
                        ));
                        assert(views_of(items@) =~= views_of(old_items).push(iv));
                        if parse_all(all.skip(i as int + 1)) is Ok {
                            let rest = parse_all(all.skip(i as int + 1))->Ok_0;
                            assert(parse_all(suffix) == Ok::<Seq<ItemView>, MalformedView>(
                                seq![iv] + rest,
                            ));
                            assert(views_of(old_items) + (seq![iv] + rest) =~= views_of(items@)
                                + rest);
                        }
                    }
                },
                None => {
                    let e = MalformedLogLine {
                        line: line.clone(),
                        reason: MalformedReason::InvalidTimestampFormat,
                    };
                    proof {
                        assert(parse_line(line@) == Err::<Option<ItemView>, MalformedView>(e@));
                    }
                    return Err(e);
                },
            }
        }
        i += 1;
    }
    proof {
        assert(all.skip(n as int) =~= Seq::<Seq<char>>::empty());
        assert(views_of(items@) + Seq::<ItemView>::empty() =~= views_of(items@));
    }
    Ok(items)
}

} // verus!
