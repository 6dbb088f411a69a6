//! The settings file: one `KEY=VALUE` per line.

use vstd::prelude::*;
use crate::codec::{find_char, first_index, slice_chars};
use crate::report::{objective_views, objectives_of_text, parse_objectives, LedgerConfig};
use crate::store::{lines_of, split_chars, views_of_lines};
use crate::text::{all_digits, chars_of, digits_value, is_digit, string_of};

verus! {

/// What the settings file gives.
pub struct Settings {
    /// Where the log is kept.
    pub history_file: Option<String>,
    pub ledger: LedgerConfig,
}

/// The settings as values.
pub struct SettingsView {
    pub history_file: Option<Seq<char>>,
    pub objectives: Option<Seq<(Seq<char>, i64)>>,
    pub display_limit: Option<usize>,
    pub separator_width: Option<usize>,
}

impl View for Settings {
    type V = SettingsView;

    open spec fn view(&self) -> SettingsView {
        SettingsView {
            history_file: match self.history_file {
                Some(s) => Some(s@),
                None => None,
            },
            objectives: match self.ledger.objectives {
                Some(os) => Some(objective_views(os@)),
                None => None,
            },
            display_limit: self.ledger.display_limit,
            separator_width: self.ledger.separator_width,
        }
    }
}

/// The line with this number (from 1) is not a setting that can be read.
#[derive(Clone, Copy, Debug, PartialEq, Eq, Structural)]
pub struct ConfigError {
    pub line_number: usize,
}

/// The count a text of decimal digits writes, if it fits `usize`.
pub open spec fn count_of_text(s: Seq<char>) -> Option<usize> {
    if s.len() > 0 && all_digits(s) && digits_value(s) <= usize::MAX {
        Some(digits_value(s) as usize)
    } else {
        None
    }
}

/// The settings after one more line, or `None` if the line cannot be read:
/// it has no `=`, or the value of a known key is not of its kind. Unknown
/// keys are passed over.
pub open spec fn apply_line(m: SettingsView, line: Seq<char>) -> Option<SettingsView> {
    match first_index(line, '=') {
        None => None,
        Some(k) => {
            let key = line.subrange(0, k);
            let value = line.subrange(k + 1, line.len() as int);
            if key == "HISTORY_FILE"@ {
                Some(SettingsView { history_file: Some(value), ..m })
            } else if key == "OBJECTIVES"@ {
                match objectives_of_text(value) {
                    Some(os) => Some(SettingsView { objectives: Some(os), ..m }),
                    None => None,
                }
            } else if key == "TRIM"@ {
                match count_of_text(value) {
                    Some(n) => Some(SettingsView { display_limit: Some(n), ..m }),
                    None => None,
                }
            } else if key == "SEP_SIZE"@ {
                match count_of_text(value) {
                    Some(n) => Some(SettingsView { separator_width: Some(n), ..m }),
                    None => None,
                }
            } else {
                Some(m)
            }
        },
    }
}

pub open spec fn empty_settings() -> SettingsView {
    SettingsView { history_file: None, objectives: None, display_limit: None, separator_width: None }
}

/// The settings of the lines, read in order; empty lines are passed over. On
/// failure, the number of the first line that cannot be read.
pub open spec fn settings_of_lines(ls: Seq<Seq<char>>) -> Result<SettingsView, usize>
    decreases ls.len(),
{
    if ls.len() == 0 {
        Ok(empty_settings())
    } else {
        match settings_of_lines(ls.drop_last()) {
            Err(n) => Err(n),
            Ok(m) => if ls.last().len() == 0 {
                Ok(m)
            } else {
                match apply_line(m, ls.last()) {
                    Some(m2) => Ok(m2),
                    None => Err(ls.len() as usize),
                }
            },
        }
    }
}

pub open spec fn settings_of_text(s: Seq<char>) -> Result<SettingsView, usize> {
    settings_of_lines(lines_of(s))
}

proof fn lemma_settings_error_kept(ls: Seq<Seq<char>>, m: int)
    requires
        0 <= m <= ls.len(),
        settings_of_lines(ls.subrange(0, m)) is Err,
    ensures
        settings_of_lines(ls) == settings_of_lines(ls.subrange(0, m)),
    decreases ls.len(),
{
    if m == ls.len() {
        assert(ls.subrange(0, m) =~= ls);
    } else {
        let d = ls.drop_last();
        assert(d.subrange(0, m) =~= ls.subrange(0, m));
        lemma_settings_error_kept(d, m);
    }
}

/// Reads a count written in decimal digits.
pub fn parse_count(s: &Vec<char>) -> (r: Option<usize>)
    ensures
        r == count_of_text(s@),
{
    if s.len() == 0 {
        return None;
    }
    let mut acc: usize = 0;
    let mut i: usize = 0;
    while i < s.len()
        invariant
            i <= s@.len(),
            all_digits(s@.subrange(0, i as int)),
            acc as int == digits_value(s@.subrange(0, i as int)),
            0 <= digits_value(s@.subrange(0, i as int)),
        decreases s@.len() - i,
    {
        let c = s[i];
        let ghost prev = s@.subrange(0, i as int);
        let ghost next = s@.subrange(0, i as int + 1);
        assert(next.drop_last() =~= prev);
        if !('0' <= c && c <= '9') {
            assert(s@[i as int] == c);
            return None;
        }
        let grown = match acc.checked_mul(10) {
            Some(v) => v.checked_add(c as usize - 48usize),
            None => None,
        };
        match grown {
            Some(v) => {
                acc = v;
            },
            None => {
                proof {
                    if all_digits(s@) {
                        lemma_digits_grow(s@, i as int + 1);
                    }
                }
                return None;
            },
        }
        i = i + 1;
        assert forall|k: int| 0 <= k < next.len() implies is_digit(#[trigger] next[k]) by {
            if k < next.len() - 1 {
                assert(next[k] == prev[k]);
            }
        }
    }
    assert(s@.subrange(0, i as int) =~= s@);
    Some(acc)
}

/// A string of digits is worth at least as much as each of its prefixes.
proof fn lemma_digits_grow(s: Seq<char>, i: int)
    requires
        0 <= i <= s.len(),
        all_digits(s),
    ensures
        digits_value(s) >= digits_value(s.subrange(0, i)),
        digits_value(s.subrange(0, i)) >= 0,
    decreases s.len(),
{
    if s.len() == 0 {
        assert(s.subrange(0, i) =~= s);
    } else if i == s.len() {
        assert(s.subrange(0, i) =~= s);
        lemma_digits_grow(s.drop_last(), i - 1);
        assert(is_digit(s.last()));
    } else {
        let d = s.drop_last();
        assert(all_digits(d)) by {
            assert forall|k: int| 0 <= k < d.len() implies is_digit(#[trigger] d[k]) by {
                assert(d[k] == s[k]);
            }
        }
        lemma_digits_grow(d, i);
        assert(d.subrange(0, i) =~= s.subrange(0, i));
        assert(is_digit(s.last()));
    }
}

/// Whether `k` holds exactly the characters of `name`.
fn is_key(k: &Vec<char>, name: &str) -> (r: bool)
    ensures
        r == (k@ == name@),
{
    let n = chars_of(name);
    if k.len() != n.len() {
        assert(k@.len() != name@.len());
        return false;
    }
    let mut i: usize = 0;
    while i < k.len()
        invariant
            i <= k@.len(),
            k@.len() == n@.len(),
            n@ == name@,
            forall|j: int| 0 <= j < i ==> k@[j] == n@[j],
        decreases k@.len() - i,
    {
        if k[i] != n[i] {
            assert(k@[i as int] != n@[i as int]);
            return false;
        }
        i = i + 1;
    }
    assert(k@ =~= n@);
    true
}

/// Reads the settings file: each non-empty line is `KEY=VALUE`, the later of
/// two lines with one key wins, and the first line that cannot be read fails
/// the whole file.
pub fn parse_settings(text: &str) -> (r: Result<Settings, ConfigError>)
    ensures
        r matches Ok(s) ==> settings_of_text(text@) == Ok::<SettingsView, usize>(s@),
        r matches Err(e) ==> settings_of_text(text@) == Err::<SettingsView, usize>(e.line_number),
{
    let chars = chars_of(text);
    let lines = split_chars(&chars, '\n');
    let ghost ls = views_of_lines(lines@);
    let mut out = Settings {
        history_file: None,
        ledger: LedgerConfig { objectives: None, display_limit: None, separator_width: None },
    };
    let mut k: usize = 0;
    assert(ls.subrange(0, 0) =~= Seq::<Seq<char>>::empty());
    while k < lines.len()
        invariant
            k <= lines@.len(),
            ls == views_of_lines(lines@),
            ls == lines_of(chars@),
            chars@ == text@,
            settings_of_lines(ls.subrange(0, k as int)) == Ok::<SettingsView, usize>(out@),
        decreases lines@.len() - k,
    {
        let line = &lines[k];
        assert(ls.subrange(0, k as int + 1).drop_last() =~= ls.subrange(0, k as int));
        assert(ls.subrange(0, k as int + 1).last() == line@);
        if line.len() > 0 {
            if !apply_setting(&mut out, line) {
                proof {
                    lemma_settings_error_kept(ls, k + 1);
                }
                return Err(ConfigError { line_number: k + 1 });
            }
        }
        k = k + 1;
    }
    assert(ls.subrange(0, k as int) =~= ls);
    Ok(out)
}

/// Applies one `KEY=VALUE` line; `false`, with the settings as they were, if
/// it cannot be read.
fn apply_setting(s: &mut Settings, line: &Vec<char>) -> (r: bool)
    ensures
        r == (apply_line(old(s)@, line@) is Some),
        r ==> apply_line(old(s)@, line@) == Some(final(s)@),
{
    let i = match find_char(line, '=') {
        None => return false,
        Some(i) => i,
    };
    let n = line.len();
    assert(i < n);
    let key = slice_chars(line, 0, i);
    let value = slice_chars(line, i + 1, n);
    if is_key(&key, "HISTORY_FILE") {
        s.history_file = Some(string_of(&value));
        true
    } else if is_key(&key, "OBJECTIVES") {
        match parse_objectives(string_of(&value).as_str()) {
            Some(os) => {
                s.ledger.objectives = Some(os);
                true
            },
            None => false,
        }
    } else if is_key(&key, "TRIM") {
        match parse_count(&value) {
            Some(n) => {
                s.ledger.display_limit = Some(n);
                true
            },
            None => false,
        }
    } else if is_key(&key, "SEP_SIZE") {
        match parse_count(&value) {
            Some(n) => {
                s.ledger.separator_width = Some(n);
                true
            },
            None => false,
        }
    } else {
        true
    }
}

} // verus!
