//! The report over a ledger: the entries in range, their total, which of
//! them are listed, and how far the total has come towards each objective.

use vstd::prelude::*;
use crate::codec::{Entry, EntryView};
use crate::filter::{in_range, DateRange};
use crate::amount::{amount_of_text, parse_amount_chars};
use crate::codec::{find_char, first_index, slice_chars};
use crate::store::{pieces_of, split_chars, views_of_entries, views_of_lines};
use crate::text::{chars_of, string_of};

verus! {

/// Entries listed when the configuration sets no limit.
pub const DEFAULT_DISPLAY_LIMIT: usize = 50;

/// Width of the section dividers when the configuration sets none.
pub const DEFAULT_SEPARATOR_WIDTH: usize = 50;

/// A named target amount, in cents, that the total is held against.
pub struct Objective {
    pub label: String,
    pub target: i64,
}

/// The objectives a list `label:amount,label:amount` names, in order; a
/// piece without `:` names none. `None` if an amount is not a decimal amount.
pub open spec fn objectives_of_pieces(ps: Seq<Seq<char>>) -> Option<Seq<(Seq<char>, i64)>>
    decreases ps.len(),
{
    if ps.len() == 0 {
        Some(Seq::empty())
    } else {
        match objectives_of_pieces(ps.drop_last()) {
            None => None,
            Some(os) => {
                let p = ps.last();
                match first_index(p, ':') {
                    None => Some(os),
                    Some(k) => match amount_of_text(p.subrange(k + 1, p.len() as int)) {
                        None => None,
                        Some(a) => Some(os.push((p.subrange(0, k), a as i64))),
                    },
                }
            },
        }
    }
}

pub open spec fn objectives_of_text(s: Seq<char>) -> Option<Seq<(Seq<char>, i64)>> {
    objectives_of_pieces(pieces_of(s, ','))
}

pub open spec fn objective_views(os: Seq<Objective>) -> Seq<(Seq<char>, i64)> {
    os.map_values(|o: Objective| (o.label@, o.target))
}

proof fn lemma_objectives_failure_kept(ps: Seq<Seq<char>>, m: int)
    requires
        0 <= m <= ps.len(),
        objectives_of_pieces(ps.subrange(0, m)) is None,
    ensures
        objectives_of_pieces(ps) is None,
    decreases ps.len(),
{
    if m == ps.len() {
        assert(ps.subrange(0, m) =~= ps);
    } else {
        let d = ps.drop_last();
        assert(d.subrange(0, m) =~= ps.subrange(0, m));
        lemma_objectives_failure_kept(d, m);
    }
}

/// Reads a list of objectives written `label:amount,label:amount`.
pub fn parse_objectives(text: &str) -> (r: Option<Vec<Objective>>)
    ensures
        r matches Some(os) ==> objectives_of_text(text@) == Some(objective_views(os@)),
        r is None ==> objectives_of_text(text@) is None,
{
    let chars = chars_of(text);
    let pieces = split_chars(&chars, ',');
    let ghost ps = views_of_lines(pieces@);
    let mut out: Vec<Objective> = Vec::new();
    let mut k: usize = 0;
    assert(ps.subrange(0, 0) =~= Seq::<Seq<char>>::empty());
    assert(objective_views(out@) =~= Seq::<(Seq<char>, i64)>::empty());
    while k < pieces.len()
        invariant
            k <= pieces@.len(),
            ps == views_of_lines(pieces@),
            ps == pieces_of(chars@, ','),
            chars@ == text@,
            objectives_of_pieces(ps.subrange(0, k as int)) == Some(objective_views(out@)),
        decreases pieces@.len() - k,
    {
        let p = &pieces[k];
        assert(ps.subrange(0, k as int + 1).drop_last() =~= ps.subrange(0, k as int));
        assert(ps.subrange(0, k as int + 1).last() == p@);
        match find_char(p, ':') {
            None => {},
            Some(i) => {
                let amount_text = slice_chars(p, i + 1, p.len());
                match parse_amount_chars(&amount_text) {
                    None => {
                        proof {
                            lemma_objectives_failure_kept(ps, k + 1);
                        }
                        return None;
                    },
                    Some(a) => {
                        let label = slice_chars(p, 0, i);
                        let ghost prev = objective_views(out@);
                        let o = Objective { label: string_of(&label), target: a };
                        let ghost ov = (o.label@, o.target);
                        out.push(o);
                        assert(objective_views(out@) =~= prev.push(ov));
                    },
                }
            },
        }
        k = k + 1;
    }
    assert(ps.subrange(0, k as int) =~= ps);
    Some(out)
}

/// The settings of one run; a missing value takes its default, but without
/// objectives no objective is reported.
pub struct LedgerConfig {
    pub objectives: Option<Vec<Objective>>,
    pub display_limit: Option<usize>,
    pub separator_width: Option<usize>,
}

impl LedgerConfig {
    pub open spec fn limit(&self) -> nat {
        match self.display_limit {
            Some(n) => n as nat,
            None => DEFAULT_DISPLAY_LIMIT as nat,
        }
    }

    /// The most entries listed.
    pub fn display_limit(&self) -> (r: usize)
        ensures
            r == self.limit(),
    {
        match self.display_limit {
            Some(n) => n,
            None => DEFAULT_DISPLAY_LIMIT,
        }
    }

    /// The width of a section divider.
    pub fn separator_width(&self) -> (r: usize)
        ensures
            r == (match self.separator_width {
                Some(n) => n,
                None => DEFAULT_SEPARATOR_WIDTH,
            }),
    {
        match self.separator_width {
            Some(n) => n,
            None => DEFAULT_SEPARATOR_WIDTH,
        }
    }
}

/// How far the total has come towards one objective.
pub struct ObjectiveProgress {
    pub label: String,
    pub target: i64,
    /// The total as a share of the target, in hundredths of a percent,
    /// rounded towards zero; `None` where it is undefined (a zero target) or
    /// beyond the range of `i128`.
    pub percent: Option<i128>,
}

/// What a report shows.
pub struct Report {
    /// The sum of the amounts of every entry in range, in cents.
    pub sum: i128,
    /// How many of the oldest entries in range are left out of the listing.
    pub hidden_count: usize,
    /// The entries in range that are listed, in log order.
    pub visible: Vec<Entry>,
    pub objectives: Option<Vec<ObjectiveProgress>>,
}

/// The entries whose day starts within the range, in order.
pub open spec fn entries_in_range(es: Seq<EntryView>, r: DateRange) -> Seq<EntryView>
    decreases es.len(),
{
    if es.len() == 0 {
        Seq::empty()
    } else {
        let p = entries_in_range(es.drop_last(), r);
        if in_range(es.last().date.instant(), r) { p.push(es.last()) } else { p }
    }
}

/// The entries a report covers: all of them when the range sets no bound.
pub open spec fn filtered(es: Seq<EntryView>, r: DateRange) -> Seq<EntryView> {
    if r.is_unbounded_spec() { es } else { entries_in_range(es, r) }
}

/// The sum of the amounts.
pub open spec fn sum_of(es: Seq<EntryView>) -> int
    decreases es.len(),
{
    if es.len() == 0 { 0 } else { sum_of(es.drop_last()) + es.last().amount }
}

/// How many entries a listing of at most `limit` leaves out of `n`.
pub open spec fn hidden_of(n: nat, limit: nat) -> nat {
    if n > limit { (n - limit) as nat } else { 0 }
}

/// `a / b` rounded towards zero.
pub open spec fn div_toward_zero(a: int, b: int) -> int {
    let q = (if a < 0 { -a } else { a }) / (if b < 0 { -b } else { b });
    if (a < 0) != (b < 0) { -q } else { q }
}

/// `sum` as a share of `target`, in hundredths of a percent.
pub open spec fn percent_of(sum: int, target: int) -> Option<int> {
    let x = sum * 10000;
    if target == 0 || x < -i128::MAX || x > i128::MAX {
        None
    } else {
        Some(div_toward_zero(x, target))
    }
}

/// `sum` as a share of `target`, in hundredths of a percent rounded towards
/// zero; `None` for a zero target, where no share is defined, and where the
/// share does not fit `i128`.
pub fn percentage(sum: i128, target: i64) -> (r: Option<i128>)
    ensures
        r matches Some(p) ==> percent_of(sum as int, target as int) == Some(p as int),
        r is None ==> percent_of(sum as int, target as int) is None,
{
    if target == 0 {
        return None;
    }
    let x = match sum.checked_mul(10000) {
        Some(x) => x,
        None => return None,
    };
    if x == i128::MIN {
        return None;
    }
    let a: i128 = if x < 0 { -x } else { x };
    let b: i128 = if target < 0 { -(target as i128) } else { target as i128 };
    let q: i128 = a / b;
    if (x < 0) != (target < 0) {
        Some(-q)
    } else {
        Some(q)
    }
}

/// Whether an amount is listed as income: only a positive one; zero and
/// negative amounts are listed as expenses.
pub fn is_credit(amount: i64) -> (r: bool)
    ensures
        r == (amount > 0),
{
    amount > 0
}

/// The entries of `entries` whose day starts within the range, copied in order.
fn select_in_range(entries: &Vec<Entry>, range: DateRange) -> (r: Vec<Entry>)
    requires
        forall|i: int| 0 <= i < entries@.len() ==> (#[trigger] entries@[i]).date.wf(),
    ensures
        views_of_entries(r@) == filtered(views_of_entries(entries@), range),
{
    let ghost all = views_of_entries(entries@);
    let mut out: Vec<Entry> = Vec::new();
    let mut i: usize = 0;
    let bounded = !range.is_unbounded();
    assert(all.subrange(0, 0) =~= Seq::<EntryView>::empty());
    assert(views_of_entries(out@) =~= Seq::<EntryView>::empty());
    while i < entries.len()
        invariant
            i <= entries@.len(),
            all == views_of_entries(entries@),
            forall|j: int| 0 <= j < entries@.len() ==> (#[trigger] entries@[j]).date.wf(),
            bounded == !range.is_unbounded_spec(),
            views_of_entries(out@) == (if bounded {
                entries_in_range(all.subrange(0, i as int), range)
            } else {
                all.subrange(0, i as int)
            }),
        decreases entries@.len() - i,
    {
        let e = &entries[i];
        let ghost prev = views_of_entries(out@);
        assert(all.subrange(0, i as int + 1).drop_last() =~= all.subrange(0, i as int));
        assert(all.subrange(0, i as int + 1).last() == e@);
        let keep = if bounded { range.contains(e.date.timestamp()) } else { true };
        if keep {
            out.push(e.duplicate());
            assert(views_of_entries(out@) =~= prev.push(e@));
        }
        i = i + 1;
        assert(views_of_entries(out@) =~= (if bounded {
            entries_in_range(all.subrange(0, i as int), range)
        } else {
            all.subrange(0, i as int)
        }));
    }
    assert(all.subrange(0, i as int) =~= all);
    out
}

/// The sum of the amounts, in cents.
fn total(entries: &Vec<Entry>) -> (r: i128)
    ensures
        r as int == sum_of(views_of_entries(entries@)),
{
    let ghost all = views_of_entries(entries@);
    let mut acc: i128 = 0;
    let mut i: usize = 0;
    assert(all.subrange(0, 0) =~= Seq::<EntryView>::empty());
    while i < entries.len()
        invariant
            i <= entries@.len(),
            all == views_of_entries(entries@),
            acc as int == sum_of(all.subrange(0, i as int)),
            -(i as int) * 0x8000_0000_0000_0000 <= acc <= (i as int) * 0x7fff_ffff_ffff_ffff,
        decreases entries@.len() - i,
    {
        let a = entries[i].amount;
        assert(all.subrange(0, i as int + 1).drop_last() =~= all.subrange(0, i as int));
        assert((i as int + 1) * 0x8000_0000_0000_0000 <= 0x1_0000_0000_0000_0000 * 0x8000_0000_0000_0000)
            by (nonlinear_arith)
            requires
                i < 0x1_0000_0000_0000_0000,
        ;
        assert((i as int) * 0x7fff_ffff_ffff_ffff + 0x7fff_ffff_ffff_ffff == (i as int + 1) * 0x7fff_ffff_ffff_ffff)
            by (nonlinear_arith);
        assert(-(i as int) * 0x8000_0000_0000_0000 - 0x8000_0000_0000_0000 == -(i as int + 1) * 0x8000_0000_0000_0000)
            by (nonlinear_arith);
        assert((i as int + 1) * 0x7fff_ffff_ffff_ffff <= 0x1_0000_0000_0000_0000 * 0x7fff_ffff_ffff_ffff)
            by (nonlinear_arith)
            requires
                i < 0x1_0000_0000_0000_0000,
        ;
        acc = acc + a as i128;
        i = i + 1;
    }
    assert(all.subrange(0, i as int) =~= all);
    acc
}

/// The progress towards each objective, in order.
fn progress_of(objectives: &Vec<Objective>, sum: i128) -> (r: Vec<ObjectiveProgress>)
    ensures
        r@.len() == objectives@.len(),
        forall|k: int| 0 <= k < r@.len() ==> {
            &&& (#[trigger] r@[k]).label@ == objectives@[k].label@
            &&& r@[k].target == objectives@[k].target
            &&& r@[k].percent matches Some(p) ==> percent_of(sum as int, objectives@[k].target as int) == Some(p as int)
            &&& r@[k].percent is None ==> percent_of(sum as int, objectives@[k].target as int) is None
        },
{
    let mut out: Vec<ObjectiveProgress> = Vec::new();
    let mut i: usize = 0;
    while i < objectives.len()
        invariant
            i <= objectives@.len(),
            out@.len() == i,
            forall|k: int| 0 <= k < i ==> {
                &&& (#[trigger] out@[k]).label@ == objectives@[k].label@
                &&& out@[k].target == objectives@[k].target
                &&& out@[k].percent matches Some(p) ==> percent_of(sum as int, objectives@[k].target as int) == Some(p as int)
                &&& out@[k].percent is None ==> percent_of(sum as int, objectives@[k].target as int) is None
            },
        decreases objectives@.len() - i,
    {
        let o = &objectives[i];
        out.push(ObjectiveProgress { label: o.label.clone(), target: o.target, percent: percentage(sum, o.target) });
        i = i + 1;
    }
    out
}

/// Builds the report: the entries in range (all of them when the range sets
/// no bound), their total, the listing without the oldest entries beyond the
/// display limit, and the progress towards each configured objective.
pub fn build_report(entries: &Vec<Entry>, range: DateRange, config: &LedgerConfig) -> (r: Report)
    requires
        forall|i: int| 0 <= i < entries@.len() ==> (#[trigger] entries@[i]).date.wf(),
    ensures
        ({
            let f = filtered(views_of_entries(entries@), range);
            let hidden = hidden_of(f.len(), config.limit());
            &&& r.sum == sum_of(f)
            &&& r.hidden_count == hidden
            &&& views_of_entries(r.visible@) == f.subrange(hidden as int, f.len() as int)
            &&& r.objectives is None <==> config.objectives is None
            &&& (r.objectives matches Some(ps) ==> config.objectives matches Some(os) && {
                &&& ps@.len() == os@.len()
                &&& forall|k: int| 0 <= k < ps@.len() ==> {
                    &&& (#[trigger] ps@[k]).label@ == os@[k].label@
                    &&& ps@[k].target == os@[k].target
                    &&& ps@[k].percent matches Some(p) ==> percent_of(r.sum as int, os@[k].target as int) == Some(p as int)
                    &&& ps@[k].percent is None ==> percent_of(r.sum as int, os@[k].target as int) is None
                }
            })
        }),
{
    let kept = select_in_range(entries, range);
    let sum = total(&kept);
    let limit = config.display_limit();
    let n = kept.len();
    let hidden: usize = if n > limit { n - limit } else { 0 };
    let ghost f = views_of_entries(kept@);
    let mut visible: Vec<Entry> = Vec::new();
    let mut i: usize = hidden;
    assert(f.subrange(hidden as int, hidden as int) =~= Seq::<EntryView>::empty());
    assert(views_of_entries(visible@) =~= Seq::<EntryView>::empty());
    while i < n
        invariant
            hidden <= i <= n,
            n == kept@.len(),
            f == views_of_entries(kept@),
            views_of_entries(visible@) == f.subrange(hidden as int, i as int),
        decreases n - i,
    {
        let ghost prev = views_of_entries(visible@);
        let e = kept[i].duplicate();
        assert(e@ == f[i as int]);
        visible.push(e);
        assert(views_of_entries(visible@) =~= prev.push(f[i as int]));
        i = i + 1;
        assert(views_of_entries(visible@) =~= f.subrange(hidden as int, i as int));
    }
    let objectives = match &config.objectives {
        None => None,
        Some(os) => Some(progress_of(os, sum)),
    };
    Report { sum, hidden_count: hidden, visible, objectives }
}

/// The hidden entries and the listed ones together make up the total: hiding
/// the oldest `k` entries changes the listing, never the sum.
pub proof fn lemma_hidden_and_visible_sum(es: Seq<EntryView>, k: int)
    requires
        0 <= k <= es.len(),
    ensures
        sum_of(es.subrange(0, k)) + sum_of(es.subrange(k, es.len() as int)) == sum_of(es),
    decreases es.len(),
{
    if k == es.len() {
        assert(es.subrange(0, k) =~= es);
        assert(es.subrange(k, es.len() as int) =~= Seq::<EntryView>::empty());
    } else {
        let d = es.drop_last();
        lemma_hidden_and_visible_sum(d, k);
        assert(d.subrange(0, k) =~= es.subrange(0, k));
        let tail = es.subrange(k, es.len() as int);
        assert(tail.drop_last() =~= d.subrange(k, d.len() as int));
        assert(tail.last() == es.last());
    }
}

/// Without bounds the report covers every entry, whatever its date.
pub proof fn lemma_unbounded_keeps_every_entry(es: Seq<EntryView>)
    ensures
        filtered(es, DateRange { start: None, end: None }) == es,
{
}

} // verus!
