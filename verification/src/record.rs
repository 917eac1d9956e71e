//! Parsing of raw tab-separated input lines into records.
//!
//! A line is split on tab characters. Field 0 must parse as an unsigned
//! 64-bit decimal integer (an optional leading `+` is accepted); field 1,
//! the text between the first tab and the second tab or the end of the
//! line, is the URL, taken verbatim. Content beyond field 1 is ignored.
//! A line with no tab, a non-numeric timestamp, or a timestamp above
//! `u64::MAX` is malformed and yields no record.

use vstd::prelude::*;

verus! {

/// One event: a timestamp paired with a URL.
pub struct Record {
    pub ts: u64,
    pub url: String,
}

impl View for Record {
    type V = (u64, Seq<char>);

    open spec fn view(&self) -> (u64, Seq<char>) {
        (self.ts, self.url@)
    }
}

impl DeepView for Record {
    type V = (u64, Seq<char>);

    open spec fn deep_view(&self) -> (u64, Seq<char>) {
        self@
    }
}

pub open spec fn is_digit(c: char) -> bool {
    48 <= c as u32 <= 57
}

pub open spec fn digit_val(c: char) -> nat {
    if is_digit(c) {
        (c as u32 - 48) as nat
    } else {
        0
    }
}

/// The value of a digit string read in base 10.
pub open spec fn digits_val(s: Seq<char>) -> nat
    decreases s.len(),
{
    if s.len() == 0 {
        0
    } else {
        digits_val(s.drop_last()) * 10 + digit_val(s.last())
    }
}

/// The digits of a decimal integer literal, with any single leading `+` removed.
pub open spec fn digits_part(s: Seq<char>) -> Seq<char> {
    if s.len() > 0 && s[0] == '+' {
        s.drop_first()
    } else {
        s
    }
}

/// Whether `s` is a decimal integer literal whose value fits in `u64`:
/// after an optional leading `+`, one or more digits, value at most `u64::MAX`.
pub open spec fn is_u64_text(s: Seq<char>) -> bool {
    let d = digits_part(s);
    &&& d.len() > 0
    &&& forall|i: int| 0 <= i < d.len() ==> is_digit(#[trigger] d[i])
    &&& digits_val(d) <= u64::MAX
}

/// The value of a decimal integer literal.
pub open spec fn u64_text_val(s: Seq<char>) -> nat {
    digits_val(digits_part(s))
}

/// The value of a digit string never shrinks as the string is extended.
proof fn lemma_digits_val_prefix(s: Seq<char>, j: int)
    requires
        0 <= j <= s.len(),
    ensures
        digits_val(s.take(j)) <= digits_val(s),
    decreases s.len(),
{
    if j == s.len() {
        assert(s.take(j) =~= s);
    } else {
        assert(s.take(j) =~= s.drop_last().take(j));
        lemma_digits_val_prefix(s.drop_last(), j);
    }
}

/// Parses the character range `[from, to)` of `cs` as a decimal `u64`.
/// Returns `Some` exactly when the range is a `u64` literal, and then the value.
pub fn parse_u64_range(cs: &Vec<char>, from: usize, to: usize) -> (r: Option<u64>)
    requires
        from <= to <= cs@.len(),
    ensures
        match r {
            Some(v) => is_u64_text(cs@.subrange(from as int, to as int)) && v
                == u64_text_val(cs@.subrange(from as int, to as int)),
            None => !is_u64_text(cs@.subrange(from as int, to as int)),
        },
{
    let ghost seg = cs@.subrange(from as int, to as int);
    let mut i: usize = from;
    if i < to && cs[i] == '+' {
        i = i + 1;
    }
    let ghost dp = digits_part(seg);
    proof {
        assert(dp =~= cs@.subrange(i as int, to as int));
    }
    if i == to {
        return None;
    }
    let start: usize = i;
    let mut val: u64 = 0;
    while i < to
        invariant
            from <= start <= i <= to <= cs@.len(),
            seg == cs@.subrange(from as int, to as int),
            dp == digits_part(seg),
            dp == cs@.subrange(start as int, to as int),
            forall|k: int| 0 <= k < i - start ==> is_digit(#[trigger] dp[k]),
            val == digits_val(dp.take(i - start)),
        decreases to - i,
    {
        let c = cs[i];
        let cu = c as u32;
        proof {
            assert(dp[i - start] == c);
            assert(dp.take(i - start + 1).drop_last() =~= dp.take(i - start));
            assert(dp.take(i - start + 1).last() == c);
        }
        if cu < 48 || cu > 57 {
            proof {
                assert(!is_digit(dp[i - start]));
            }
            return None;
        }
        let d = (cu - 48) as u64;
        if val > u64::MAX / 10 {
            proof {
                assert(digits_val(dp.take(i - start + 1)) == val * 10 + digit_val(c));
                assert(val >= 1844674407370955162);
                assert(digits_val(dp.take(i - start + 1)) > u64::MAX);
                lemma_digits_val_prefix(dp, i - start + 1);
            }
            return None;
        }
        assert(val * 10 <= u64::MAX) by {
            assert(val <= 1844674407370955161);
        }
        let shifted = val * 10;
        if shifted > u64::MAX - d {
            proof {
                assert(digits_val(dp.take(i - start + 1)) == val * 10 + digit_val(c));
                assert(digits_val(dp.take(i - start + 1)) > u64::MAX);
                lemma_digits_val_prefix(dp, i - start + 1);
            }
            return None;
        }
        val = shifted + d;
        i = i + 1;
    }
    proof {
        assert(dp.take(to - start) =~= dp);
    }
    Some(val)
}

/// The index of the first tab character of `s` at or after position `from`,
/// or `s.len()` when there is none.
pub open spec fn first_tab_from(s: Seq<char>, from: int) -> int
    decreases s.len() - from,
{
    if from < 0 || from >= s.len() {
        s.len() as int
    } else if s[from] == '\t' {
        from
    } else {
        first_tab_from(s, from + 1)
    }
}

/// Finds the first tab at or after `from`, per `first_tab_from`.
pub fn find_tab(cs: &Vec<char>, from: usize) -> (r: usize)
    requires
        from <= cs@.len(),
    ensures
        r == first_tab_from(cs@, from as int),
        from <= r <= cs@.len(),
{
    let mut i: usize = from;
    while i < cs.len()
        invariant
            from <= i <= cs@.len(),
            first_tab_from(cs@, from as int) == first_tab_from(cs@, i as int),
        decreases cs@.len() - i,
    {
        if cs[i] == '\t' {
            return i;
        }
        i = i + 1;
    }
    i
}

/// Whether a raw line parses as a record: it has a tab, and the text before
/// the first tab is a `u64` literal.
pub open spec fn line_valid(s: Seq<char>) -> bool {
    &&& first_tab_from(s, 0) < s.len()
    &&& is_u64_text(s.take(first_tab_from(s, 0)))
}

/// The timestamp of a valid line.
pub open spec fn line_ts(s: Seq<char>) -> u64 {
    u64_text_val(s.take(first_tab_from(s, 0))) as u64
}

/// The URL of a valid line: the text between the first tab and the second
/// tab, or the end of the line when there is no second tab.
pub open spec fn line_url(s: Seq<char>) -> Seq<char> {
    let t = first_tab_from(s, 0);
    s.subrange(t + 1, first_tab_from(s, t + 1))
}

/// Copies the characters of `s` into a vector.
fn str_chars(s: &str) -> (v: Vec<char>)
    ensures
        v@ == s@,
{
    let n = s.unicode_len();
    let mut v: Vec<char> = Vec::new();
    let mut i: usize = 0;
    while i < n
        invariant
            i <= n,
            n == s@.len(),
            v@ == s@.take(i as int),
        decreases n - i,
    {
        let c = s.get_char(i);
        v.push(c);
        proof {
            assert(v@ =~= s@.take(i + 1));
        }
        i = i + 1;
    }
    proof {
        assert(s@.take(n as int) =~= s@);
    }
    v
}

/// Parses one raw line. Returns the record exactly when the line is valid,
/// with its timestamp and URL as `line_ts` and `line_url` give them; a
/// malformed line yields `None`.
pub fn parse_line(line: &str) -> (r: Option<Record>)
    ensures
        match r {
            Some(rec) => line_valid(line@) && rec.ts == line_ts(line@) && rec.url@ == line_url(
                line@,
            ),
            None => !line_valid(line@),
        },
{
    let cs = str_chars(line);
    let n = cs.len();
    let t = find_tab(&cs, 0);
    if t == n {
        return None;
    }
    proof {
        assert(cs@.subrange(0, t as int) =~= cs@.take(t as int));
    }
    let ts = match parse_u64_range(&cs, 0, t) {
        Some(v) => v,
        None => {
            return None;
        },
    };
    let t2 = find_tab(&cs, t + 1);
    let url = line.substring_char(t + 1, t2);
    Some(Record { ts, url: String::from_str(url) })
}

/// The records of a sequence of raw lines, in order, one per valid line;
/// malformed lines contribute nothing.
pub open spec fn parsed_lines(lines: Seq<Seq<char>>) -> Seq<(u64, Seq<char>)>
    decreases lines.len(),
{
    if lines.len() == 0 {
        Seq::empty()
    } else {
        let rest = parsed_lines(lines.drop_last());
        if line_valid(lines.last()) {
            rest.push((line_ts(lines.last()), line_url(lines.last())))
        } else {
            rest
        }
    }
}

/// There are never more records than lines.
pub proof fn lemma_parsed_lines_len(lines: Seq<Seq<char>>)
    ensures
        parsed_lines(lines).len() <= lines.len(),
    decreases lines.len(),
{
    if lines.len() > 0 {
        lemma_parsed_lines_len(lines.drop_last());
    }
}

/// Parses every line, keeping the records of the valid ones in order.
pub fn parse_lines(lines: &Vec<String>) -> (recs: Vec<Record>)
    ensures
        recs.deep_view() == parsed_lines(lines.deep_view()),
{
    let mut recs: Vec<Record> = Vec::new();
    let mut i: usize = 0;
    while i < lines.len()
        invariant
            i <= lines@.len(),
            recs.deep_view() == parsed_lines(lines.deep_view().take(i as int)),
        decreases lines@.len() - i,
    {
        proof {
            assert(lines.deep_view().take(i + 1).drop_last() =~= lines.deep_view().take(i as int));
            assert(lines.deep_view().take(i + 1).last() == lines.deep_view()[i as int]);
            assert(lines.deep_view()[i as int] == lines@[i as int]@);
        }
        match parse_line(lines[i].as_str()) {
            Some(rec) => {
                recs.push(rec);
                proof {
                    assert(recs.deep_view() =~= parsed_lines(lines.deep_view().take(i + 1)));
                }
            },
            None => {
                proof {
                    assert(recs.deep_view() =~= parsed_lines(lines.deep_view().take(i + 1)));
                }
            },
        }
        i = i + 1;
    }
    proof {
        assert(lines.deep_view().take(lines@.len() as int) =~= lines.deep_view());
    }
    recs
}

} // verus!
