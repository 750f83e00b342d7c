//! The ledger record and its mathematical view.

use vstd::prelude::*;
use crate::numeral::{decimal, digit_char, push_decimal};
use crate::text::{chars_of, same_chars};

verus! {

/// One entry of the ledger. Money is in fen (hundredths of a yuan), time in
/// tenths of an hour.
#[derive(Debug, Clone)]
pub struct Record {
    /// The number that the store gave the entry.
    pub id: i64,
    /// The day of the entry, as `YYYY-MM-DD`.
    pub date: String,
    /// Who paid.
    pub boss: String,
    /// The amount, in fen.
    pub income: i64,
    /// The time spent, in tenths of an hour, where it was given.
    pub duration: Option<u32>,
    /// What was played, where it was given.
    pub game: Option<String>,
    /// Whether the boss has paid the entry out.
    pub settled: bool,
}

/// A record as plain mathematical values.
pub ghost struct Entry {
    pub id: int,
    pub date: Seq<char>,
    pub boss: Seq<char>,
    pub income: int,
    pub duration: Option<nat>,
    pub game: Option<Seq<char>>,
    pub settled: bool,
}

impl View for Record {
    type V = Entry;

    open spec fn view(&self) -> Entry {
        Entry {
            id: self.id as int,
            date: self.date@,
            boss: self.boss@,
            income: self.income as int,
            duration: match self.duration {
                Some(d) => Some(d as nat),
                None => None,
            },
            game: match self.game {
                Some(g) => Some(g@),
                None => None,
            },
            settled: self.settled,
        }
    }
}

/// The views of `records`, in order.
pub open spec fn entries(records: Seq<Record>) -> Seq<Entry> {
    records.map_values(|r: Record| r@)
}

/// Whether the text `a` lies below the text `b` in the order of their
/// characters: at the first place where they differ `a` has the lower
/// character, or `a` ends there and `b` goes on.
pub open spec fn text_below(a: Seq<char>, b: Seq<char>) -> bool
    decreases a.len(),
{
    if b.len() == 0 {
        false
    } else if a.len() == 0 {
        true
    } else if a[0] != b[0] {
        a[0] < b[0]
    } else {
        text_below(a.drop_first(), b.drop_first())
    }
}

/// Whether `a` is listed before `b`: the entry of the later date comes
/// first, and of two entries of one date the one with the higher number.
pub open spec fn listed_before(a: Entry, b: Entry) -> bool {
    text_below(b.date, a.date) || (a.date == b.date && a.id > b.id)
}

/// Whether `es` is in the order in which the store lists its records: every
/// entry is listed before all that follow it.
pub open spec fn canonical(es: Seq<Entry>) -> bool {
    forall|i: int, j: int| 0 <= i < j < es.len() ==> listed_before(#[trigger] es[i], #[trigger] es[j])
}

/// Texts that agree in their first `k` characters compare as what follows
/// those characters.
pub proof fn lemma_text_below_skip(a: Seq<char>, b: Seq<char>, k: int)
    requires
        0 <= k <= a.len(),
        k <= b.len(),
        forall|i: int| 0 <= i < k ==> a[i] == b[i],
    ensures
        text_below(a, b) == text_below(a.skip(k), b.skip(k)),
    decreases k,
{
    if k == 0 {
        assert(a.skip(0) =~= a);
        assert(b.skip(0) =~= b);
    } else {
        assert(a[0] == b[0]);
        lemma_text_below_skip(a.drop_first(), b.drop_first(), k - 1);
        assert(a.drop_first().skip(k - 1) =~= a.skip(k));
        assert(b.drop_first().skip(k - 1) =~= b.skip(k));
    }
}

/// The order of texts passes on: below what is below is below.
pub proof fn lemma_text_below_passes_on(a: Seq<char>, b: Seq<char>, c: Seq<char>)
    requires
        text_below(a, b),
        text_below(b, c),
    ensures
        text_below(a, c),
    decreases a.len(),
{
    if a.len() > 0 && a[0] == b[0] && b[0] == c[0] {
        lemma_text_below_passes_on(a.drop_first(), b.drop_first(), c.drop_first());
    }
}

/// The order of the list passes on: what is listed before an entry is
/// listed before all that the entry is listed before.
pub proof fn lemma_listed_before_passes_on(a: Entry, b: Entry, c: Entry)
    requires
        listed_before(a, b),
        listed_before(b, c),
    ensures
        listed_before(a, c),
{
    if text_below(b.date, a.date) && text_below(c.date, b.date) {
        lemma_text_below_passes_on(c.date, b.date, a.date);
    }
}

/// What is picked out of a list in the order of the store is in that order.
pub proof fn lemma_filter_keeps_order(es: Seq<Entry>, pick: spec_fn(Entry) -> bool)
    requires
        canonical(es),
    ensures
        canonical(es.filter(pick)),
    decreases es.len(),
{
    reveal(Seq::filter);
    if es.len() > 0 {
        let init = es.drop_last();
        let last = es.last();
        assert forall|i: int, j: int| 0 <= i < j < init.len() implies listed_before(
            #[trigger] init[i],
            #[trigger] init[j],
        ) by {
            assert(init[i] == es[i] && init[j] == es[j]);
        }
        lemma_filter_keeps_order(init, pick);
        let chosen = init.filter(pick);
        if pick(last) {
            let more = chosen.push(last);
            assert forall|i: int, j: int| 0 <= i < j < more.len() implies listed_before(
                #[trigger] more[i],
                #[trigger] more[j],
            ) by {
                if j < chosen.len() {
                    assert(more[i] == chosen[i] && more[j] == chosen[j]);
                } else {
                    assert(chosen.contains(chosen[i]));
                    init.lemma_filter_contains_rev(pick, chosen[i]);
                    let k = choose|k: int| 0 <= k < init.len() && init[k] == chosen[i];
                    assert(es[k] == chosen[i]);
                    assert(listed_before(es[k], es[es.len() - 1]));
                }
            }
        }
    }
}

/// A time of `tenths` tenths of an hour as text, with one decimal.
pub open spec fn hours_text(tenths: nat) -> Seq<char> {
    decimal(tenths / 10) + seq!['.', digit_char(tenths % 10), 'h']
}

/// The time of a record as the list shows it: whole hours without a
/// decimal, other times with one, and a dash where no time above zero was
/// given.
pub open spec fn duration_text(duration: Option<nat>) -> Seq<char> {
    match duration {
        Some(tenths) if tenths > 0 => if tenths % 10 == 0 {
            decimal(tenths / 10).push('h')
        } else {
            hours_text(tenths)
        },
        _ => seq!['-'],
    }
}

/// A time of `tenths` tenths of an hour as text, with one decimal.
pub fn format_hours(tenths: u128) -> (text: String)
    ensures
        text@ == hours_text(tenths as nat),
{
    let mut text = String::new();
    push_decimal(&mut text, tenths / 10);
    text.push('.');
    text.push(((tenths % 10) as u8 + 48) as char);
    text.push('h');
    proof {
        assert(text@ =~= hours_text(tenths as nat));
    }
    text
}

/// The time of a record as the list shows it.
pub fn format_duration(duration: Option<u32>) -> (text: String)
    ensures
        text@ == duration_text(
            match duration {
                Some(d) => Some(d as nat),
                None => None,
            },
        ),
{
    match duration {
        Some(tenths) if tenths > 0 => {
            if tenths % 10 == 0 {
                let mut text = String::new();
                push_decimal(&mut text, (tenths / 10) as u128);
                text.push('h');
                text
            } else {
                format_hours(tenths as u128)
            }
        },
        _ => {
            let mut text = String::new();
            text.push('-');
            proof {
                assert(text@ =~= seq!['-']);
            }
            text
        },
    }
}

/// Tells whether the text `a` lies below the text `b`.
pub fn is_text_below(a: &Vec<char>, b: &Vec<char>) -> (below: bool)
    ensures
        below == text_below(a@, b@),
{
    let mut k: usize = 0;
    while k < a.len() && k < b.len() && a[k] == b[k]
        invariant
            k <= a.len(),
            k <= b.len(),
            forall|i: int| 0 <= i < k ==> a@[i] == b@[i],
        decreases a.len() - k,
    {
        k += 1;
    }
    proof {
        lemma_text_below_skip(a@, b@, k as int);
    }
    if k == b.len() {
        false
    } else if k == a.len() {
        true
    } else {
        a[k] < b[k]
    }
}

/// Tells whether `a` is listed before `b`.
pub fn is_listed_before(a: &Record, b: &Record) -> (before: bool)
    ensures
        before == listed_before(a@, b@),
{
    let x = chars_of(a.date.as_str());
    let y = chars_of(b.date.as_str());
    is_text_below(&y, &x) || (same_chars(&x, &y) && a.id > b.id)
}

/// Tells whether `records` are in the order in which the store lists them:
/// later dates first, and within a date higher numbers first.
pub fn is_canonical(records: &Vec<Record>) -> (ordered: bool)
    ensures
        ordered == canonical(entries(records@)),
{
    let ghost es = entries(records@);
    if records.len() < 2 {
        return true;
    }
    let mut k: usize = 1;
    while k < records.len()
        invariant
            1 <= k <= records.len(),
            es == entries(records@),
            forall|i: int, j: int| 0 <= i < j < k ==> listed_before(#[trigger] es[i], #[trigger] es[j]),
        decreases records.len() - k,
    {
        if !is_listed_before(&records[k - 1], &records[k]) {
            assert(!listed_before(es[k - 1], es[k as int]));
            return false;
        }
        proof {
            assert forall|i: int, j: int| 0 <= i < j < k + 1 implies listed_before(
                #[trigger] es[i],
                #[trigger] es[j],
            ) by {
                if j == k && i < k - 1 {
                    lemma_listed_before_passes_on(es[i], es[k - 1], es[k as int]);
                }
            }
        }
        k += 1;
    }
    true
}

impl Record {
    /// The record of one row of the store: the columns as they are, but for
    /// the paid-out flag, which is set where the column holds a number other
    /// than zero.
    pub fn from_row(
        id: i64,
        date: String,
        boss: String,
        income: i64,
        duration: Option<u32>,
        game: Option<String>,
        settled: Option<i32>,
    ) -> (record: Record)
        ensures
            record == (Record {
                id,
                date,
                boss,
                income,
                duration,
                game,
                settled: settled matches Some(flag) && flag != 0,
            }),
    {
        let settled = match settled {
            Some(flag) => flag != 0,
            None => false,
        };
        Record { id, date, boss, income, duration, game, settled }
    }

    /// A record with the same contents.
    pub fn duplicate(&self) -> (copy: Record)
        ensures
            copy@ == self@,
    {
        Record {
            id: self.id,
            date: self.date.clone(),
            boss: self.boss.clone(),
            income: self.income,
            duration: self.duration,
            game: match &self.game {
                Some(g) => Some(g.clone()),
                None => None,
            },
            settled: self.settled,
        }
    }
}

} // verus!
