//! One ledger entry per line of the log: `date:amount:description`.

use vstd::prelude::*;
use crate::amount::{amount_of_text, amount_text, lemma_amount_round_trip, parse_amount_chars, push_amount};
use crate::date::{date_of_text, lemma_date_round_trip, parse_date_chars, Date};
use crate::text::{all_digits, chars_of, digits_of, is_digit, lemma_digits_of, lemma_padded_digits, padded_digits, string_of};

verus! {

/// The character between the fields of a line.
pub open spec fn sep() -> char {
    ':'
}

/// One financial event: positive amounts are income, negative ones expenses.
pub struct Entry {
    pub date: Date,
    /// The signed amount, in cents.
    pub amount: i64,
    pub description: String,
}

/// What an entry holds, as values.
pub struct EntryView {
    pub date: Date,
    pub amount: i64,
    pub description: Seq<char>,
}

impl View for Entry {
    type V = EntryView;

    open spec fn view(&self) -> EntryView {
        EntryView { date: self.date, amount: self.amount, description: self.description@ }
    }
}

/// Why a line does not hold an entry.
#[derive(Clone, Copy, Debug, PartialEq, Eq, Structural)]
pub enum DecodeError {
    /// Fewer than two separators.
    Malformed,
    /// The amount field is not a decimal amount in cents range.
    InvalidAmount,
    /// The date field is not a real day in the `DD/MM/YYYY` pattern.
    InvalidDate,
}

pub open spec fn has_char(s: Seq<char>, c: char) -> bool {
    exists|i: int| 0 <= i < s.len() && s[i] == c
}

impl EntryView {
    /// A valid entry: a real day, and a description that keeps the line whole.
    pub open spec fn wf(self) -> bool {
        self.date.wf() && !has_char(self.description, '\n')
    }
}

/// The line of an entry, newline included.
pub open spec fn line_of(e: EntryView) -> Seq<char> {
    e.date.text() + seq![sep()] + amount_text(e.amount as int) + seq![sep()] + e.description
        + seq!['\n']
}

/// The position of the first `c` in `s`, if there is one.
pub open spec fn first_index(s: Seq<char>, c: char) -> Option<int>
    decreases s.len(),
{
    if s.len() == 0 {
        None
    } else if s[0] == c {
        Some(0)
    } else {
        match first_index(s.drop_first(), c) {
            Some(k) => Some(k + 1),
            None => None,
        }
    }
}

pub proof fn lemma_first_index(s: Seq<char>, c: char)
    ensures
        match first_index(s, c) {
            Some(i) => 0 <= i < s.len() && s[i] == c && !has_char(s.subrange(0, i), c),
            None => !has_char(s, c),
        },
    decreases s.len(),
{
    if s.len() == 0 {
    } else if s[0] == c {
        assert(s.subrange(0, 0) =~= Seq::<char>::empty());
    } else {
        let t = s.drop_first();
        lemma_first_index(t, c);
        match first_index(t, c) {
            Some(k) => {
                let p = s.subrange(0, k + 1);
                assert forall|m: int| 0 <= m < k + 1 implies #[trigger] p[m] != c by {
                    if m > 0 {
                        assert(s.subrange(0, k + 1)[m] == t.subrange(0, k)[m - 1]);
                    }
                }
            },
            None => {
                assert forall|m: int| 0 <= m < s.len() implies #[trigger] s[m] != c by {
                    if m > 0 {
                        assert(s[m] == t[m - 1]);
                    }
                }
            },
        }
    }
}

/// The line without one trailing newline.
pub open spec fn line_body(l: Seq<char>) -> Seq<char> {
    if l.len() > 0 && l.last() == '\n' { l.drop_last() } else { l }
}

/// The entry a line holds: the text up to the first separator is the date,
/// the text up to the next one the amount, and the rest, verbatim, the
/// description.
pub open spec fn decode_line(l: Seq<char>) -> Result<EntryView, DecodeError> {
    let b = line_body(l);
    match first_index(b, sep()) {
        None => Err(DecodeError::Malformed),
        Some(i) => {
            let rest = b.subrange(i + 1, b.len() as int);
            match first_index(rest, sep()) {
                None => Err(DecodeError::Malformed),
                Some(j) => fields_entry(b.subrange(0, i), rest.subrange(0, j), rest.subrange(j + 1, rest.len() as int)),
            }
        },
    }
}

/// The entry made of the three fields of a line.
pub open spec fn fields_entry(date: Seq<char>, amount: Seq<char>, description: Seq<char>) -> Result<EntryView, DecodeError> {
    match date_of_text(date) {
        None => Err(DecodeError::InvalidDate),
        Some(d) => match amount_of_text(amount) {
            None => Err(DecodeError::InvalidAmount),
            Some(a) => Ok(EntryView { date: d, amount: a as i64, description }),
        },
    }
}

/// `r@ == s@[lo..hi]`.
pub fn slice_chars(s: &Vec<char>, lo: usize, hi: usize) -> (r: Vec<char>)
    requires
        lo <= hi <= s@.len(),
    ensures
        r@ == s@.subrange(lo as int, hi as int),
{
    let mut r: Vec<char> = Vec::new();
    let mut i: usize = lo;
    while i < hi
        invariant
            lo <= i <= hi <= s@.len(),
            r@ == s@.subrange(lo as int, i as int),
        decreases hi - i,
    {
        r.push(s[i]);
        i = i + 1;
        assert(r@ =~= s@.subrange(lo as int, i as int));
    }
    r
}

/// The position of the first `c` in `s`, if there is one.
pub fn find_char(s: &Vec<char>, c: char) -> (r: Option<usize>)
    ensures
        r matches Some(i) ==> first_index(s@, c) == Some(i as int) && i < s@.len(),
        r is None ==> first_index(s@, c) is None,
{
    let mut i: usize = 0;
    while i < s.len()
        invariant
            i <= s@.len(),
            !has_char(s@.subrange(0, i as int), c),
        decreases s@.len() - i,
    {
        if s[i] == c {
            proof {
                lemma_first_index_at(s@, c, i as int);
            }
            return Some(i);
        }
        i = i + 1;
        assert forall|k: int| 0 <= k < i implies s@.subrange(0, i as int)[k] != c by {
            if k < i - 1 {
                assert(s@.subrange(0, i as int)[k] == s@.subrange(0, i - 1)[k]);
            }
        }
    }
    assert(s@.subrange(0, i as int) =~= s@);
    proof {
        lemma_first_index(s@, c);
    }
    None
}

impl Entry {
    /// A new entry, if the day is real and the description holds neither a
    /// separator nor a newline, which would break the line format.
    pub fn new(date: Date, amount: i64, description: &str) -> (r: Option<Entry>)
        ensures
            r is Some <==> date.wf() && !has_char(description@, sep()) && !has_char(description@, '\n'),
            r matches Some(e) ==> e@ == (EntryView { date, amount, description: description@ }),
    {
        let chars = chars_of(description);
        let ok_date = Date::new(date.day, date.month, date.year).is_some();
        if !ok_date || find_char(&chars, ':').is_some() || find_char(&chars, '\n').is_some() {
            proof {
                lemma_first_index(chars@, ':');
                lemma_first_index(chars@, '\n');
            }
            return None;
        }
        proof {
            lemma_first_index(chars@, ':');
            lemma_first_index(chars@, '\n');
        }
        Some(Entry { date, amount, description: string_of(&chars) })
    }

    /// A copy of the entry.
    pub fn duplicate(&self) -> (r: Entry)
        ensures
            r@ == self@,
    {
        Entry { date: self.date, amount: self.amount, description: self.description.clone() }
    }

    /// The entry's line, newline included.
    pub fn encode(&self) -> (r: String)
        ensures
            r@ == line_of(self@),
    {
        let mut v: Vec<char> = Vec::new();
        let date = chars_of(self.date.format().as_str());
        let desc = chars_of(self.description.as_str());
        let mut i: usize = 0;
        while i < date.len()
            invariant
                i <= date@.len(),
                v@ == date@.subrange(0, i as int),
            decreases date@.len() - i,
        {
            v.push(date[i]);
            i = i + 1;
            assert(v@ =~= date@.subrange(0, i as int));
        }
        v.push(':');
        push_amount(&mut v, self.amount);
        v.push(':');
        let ghost head = v@;
        let mut k: usize = 0;
        while k < desc.len()
            invariant
                k <= desc@.len(),
                v@ == head + desc@.subrange(0, k as int),
            decreases desc@.len() - k,
        {
            v.push(desc[k]);
            k = k + 1;
            assert(v@ =~= head + desc@.subrange(0, k as int));
        }
        v.push('\n');
        assert(v@ =~= line_of(self@));
        string_of(&v)
    }

    /// Reads an entry from one line of the log.
    pub fn decode(line: &str) -> (r: Result<Entry, DecodeError>)
        ensures
            r matches Ok(e) ==> decode_line(line@) == Ok::<EntryView, DecodeError>(e@),
            r matches Err(err) ==> decode_line(line@) == Err::<EntryView, DecodeError>(err),
    {
        let chars = chars_of(line);
        Entry::decode_chars(&chars)
    }

    /// Reads an entry from the characters of one line of the log.
    #[verifier::rlimit(40)]
    pub fn decode_chars(l: &Vec<char>) -> (r: Result<Entry, DecodeError>)
        ensures
            r matches Ok(e) ==> decode_line(l@) == Ok::<EntryView, DecodeError>(e@),
            r matches Err(err) ==> decode_line(l@) == Err::<EntryView, DecodeError>(err),
    {
        let n: usize = if l.len() > 0 && l[l.len() - 1] == '\n' { l.len() - 1 } else { l.len() };
        let b = slice_chars(l, 0, n);
        assert(b@ =~= line_body(l@));
        let i = match find_char(&b, ':') {
            None => return Err(DecodeError::Malformed),
            Some(i) => i,
        };
        let rest = slice_chars(&b, i + 1, b.len());
        let j = match find_char(&rest, ':') {
            None => return Err(DecodeError::Malformed),
            Some(j) => j,
        };
        let date_text = slice_chars(&b, 0, i);
        let amount_text = slice_chars(&rest, 0, j);
        let desc = slice_chars(&rest, j + 1, rest.len());
        assert(decode_line(l@) == fields_entry(date_text@, amount_text@, desc@));
        Entry::from_fields(&date_text, &amount_text, &desc)
    }

    /// The entry made of the three fields of a line.
    fn from_fields(date_text: &Vec<char>, amount_text: &Vec<char>, desc: &Vec<char>) -> (r: Result<Entry, DecodeError>)
        ensures
            r matches Ok(e) ==> fields_entry(date_text@, amount_text@, desc@) == Ok::<EntryView, DecodeError>(e@),
            r matches Err(err) ==> fields_entry(date_text@, amount_text@, desc@) == Err::<EntryView, DecodeError>(err),
    {
        let date = match parse_date_chars(date_text) {
            None => return Err(DecodeError::InvalidDate),
            Some(d) => d,
        };
        let amount = match parse_amount_chars(amount_text) {
            None => return Err(DecodeError::InvalidAmount),
            Some(a) => a,
        };
        Ok(Entry { date, amount, description: string_of(desc) })
    }
}

proof fn lemma_no_sep_in_digits(s: Seq<char>)
    requires
        all_digits(s),
    ensures
        !has_char(s, sep()),
{
    if has_char(s, sep()) {
        let i = choose|i: int| 0 <= i < s.len() && s[i] == sep();
        assert(is_digit(s[i]));
    }
}

proof fn lemma_first_index_at(s: Seq<char>, c: char, i: int)
    requires
        0 <= i < s.len(),
        s[i] == c,
        !has_char(s.subrange(0, i), c),
    ensures
        first_index(s, c) == Some(i),
{
    lemma_first_index(s, c);
    match first_index(s, c) {
        Some(j) => {
            if j < i {
                assert(s.subrange(0, i)[j] == c);
            } else if j > i {
                assert(s.subrange(0, j)[i] == c);
            }
        },
        None => {
            assert(s[i] == c);
        },
    }
}

/// Encoding a valid entry and decoding the line gives the same entry back.
#[verifier::rlimit(40)]
pub proof fn lemma_decode_encode(e: EntryView)
    requires
        e.wf(),
    ensures
        decode_line(line_of(e)) == Ok::<EntryView, DecodeError>(e),
{
    let dt = e.date.text();
    let at = amount_text(e.amount as int);
    let l = line_of(e);
    let b = line_body(l);
    assert(b =~= dt + seq![sep()] + at + seq![sep()] + e.description);
    lemma_padded_digits(e.date.day as nat, 2);
    lemma_padded_digits(e.date.month as nat, 2);
    lemma_padded_digits(e.date.year as nat, 4);
    assert(!has_char(dt, sep())) by {
        if has_char(dt, sep()) {
            let k = choose|k: int| 0 <= k < dt.len() && dt[k] == sep();
            if k < 2 {
                assert(dt[k] == padded_digits(e.date.day as nat, 2)[k]);
            } else if 2 < k < 5 {
                assert(dt[k] == padded_digits(e.date.month as nat, 2)[k - 3]);
            } else if k > 5 {
                assert(dt[k] == padded_digits(e.date.year as nat, 4)[k - 6]);
            }
        }
    }
    assert(b.subrange(0, dt.len() as int) =~= dt);
    lemma_first_index_at(b, sep(), dt.len() as int);
    let rest = b.subrange(dt.len() as int + 1, b.len() as int);
    assert(rest =~= at + seq![sep()] + e.description);
    let m: nat = (if e.amount < 0 { -(e.amount as int) } else { e.amount as int }) as nat;
    lemma_digits_of(m / 100);
    assert(!has_char(at, sep())) by {
        if has_char(at, sep()) {
            let k = choose|k: int| 0 <= k < at.len() && at[k] == sep();
            lemma_no_sep_in_digits(digits_of(m / 100));
            lemma_padded_digits(m % 100, 2);
            lemma_no_sep_in_digits(padded_digits(m % 100, 2));
            let body = digits_of(m / 100) + crate::amount::fraction_text(m % 100);
            let off: int = if e.amount < 0 { 1 } else { 0 };
            if k >= off {
                assert(at[k] == body[k - off]);
                let ds = digits_of(m / 100);
                if k - off < ds.len() {
                    assert(body[k - off] == ds[k - off]);
                    assert(is_digit(ds[k - off]));
                } else if m % 100 != 0 && m % 100 % 10 != 0 && k - off > ds.len() {
                    assert(body[k - off] == padded_digits(m % 100, 2)[k - off - ds.len() - 1]);
                }
            }
        }
    }
    assert(rest.subrange(0, at.len() as int) =~= at);
    lemma_first_index_at(rest, sep(), at.len() as int);
    assert(rest.subrange(at.len() as int + 1, rest.len() as int) =~= e.description);
    assert(b.subrange(0, dt.len() as int) =~= dt);
    lemma_date_round_trip(e.date);
    lemma_amount_round_trip(e.amount);
}

} // verus!
