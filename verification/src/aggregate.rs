//! Balances over a snapshot of records: in all, of a day, of a month, of
//! each boss, and the running balance down a list.

use vstd::prelude::*;
use crate::calendar::{month_key, month_key_text, Date};
use crate::record::{canonical, entries, lemma_filter_keeps_order, Entry, Record};
use crate::text::{chars_of, has_prefix, same_chars};

verus! {

/// The sum of the incomes of `es`.
pub open spec fn total(es: Seq<Entry>) -> int
    decreases es.len(),
{
    if es.len() == 0 {
        0
    } else {
        total(es.drop_last()) + es.last().income
    }
}

/// The entries of any day, boss and month.
pub open spec fn any_entry() -> spec_fn(Entry) -> bool {
    |e: Entry| true
}

/// The entries dated `date`.
pub open spec fn dated(date: Seq<char>) -> spec_fn(Entry) -> bool {
    |e: Entry| e.date == date
}

/// The entries whose date starts with `prefix`.
pub open spec fn date_starts(prefix: Seq<char>) -> spec_fn(Entry) -> bool {
    |e: Entry| prefix.is_prefix_of(e.date)
}

/// The entries that `boss` paid.
pub open spec fn paid_by(boss: Seq<char>) -> spec_fn(Entry) -> bool {
    |e: Entry| e.boss == boss
}

/// The total of one more entry is the total so far plus its income.
pub proof fn lemma_total_push(es: Seq<Entry>, e: Entry)
    ensures
        total(es.push(e)) == total(es) + e.income,
{
    assert(es.push(e).drop_last() =~= es);
}

/// With one more entry, the total of those that `pick` takes grows by the
/// entry's income if `pick` takes it, and stays otherwise.
pub proof fn lemma_picked_total_push(es: Seq<Entry>, e: Entry, pick: spec_fn(Entry) -> bool)
    ensures
        total(es.push(e).filter(pick)) == total(es.filter(pick)) + if pick(e) {
            e.income
        } else {
            0
        },
{
    reveal(Seq::filter);
    assert(es.push(e).drop_last() =~= es);
    if pick(e) {
        lemma_total_push(es.filter(pick), e);
    }
}

/// The views of the first `n + 1` records are those of the first `n` and
/// that of the next.
pub proof fn lemma_entries_take(records: Seq<Record>, n: int)
    requires
        0 <= n < records.len(),
    ensures
        entries(records.take(n + 1)) == entries(records.take(n)).push(records[n]@),
{
    assert(entries(records.take(n + 1)) =~= entries(records.take(n)).push(records[n]@));
}

/// Which entries a balance is taken over.
enum Scope {
    All,
    Day,
    DatePrefix,
    Boss,
}

impl Scope {
    /// The entries that the scope takes, for the key `key`.
    spec fn picks(self, key: Seq<char>) -> spec_fn(Entry) -> bool {
        match self {
            Scope::All => any_entry(),
            Scope::Day => dated(key),
            Scope::DatePrefix => date_starts(key),
            Scope::Boss => paid_by(key),
        }
    }

    /// Tells whether the scope, for the key `key`, takes `r`.
    fn takes(&self, key: &Vec<char>, r: &Record) -> (b: bool)
        ensures
            b == (self.picks(key@))(r@),
    {
        match self {
            Scope::All => true,
            Scope::Day => {
                let date = chars_of(r.date.as_str());
                same_chars(&date, key)
            },
            Scope::DatePrefix => {
                let date = chars_of(r.date.as_str());
                has_prefix(&date, key)
            },
            Scope::Boss => {
                let boss = chars_of(r.boss.as_str());
                same_chars(&boss, key)
            },
        }
    }
}

/// The sum of the incomes of the records that `scope` takes for `key`.
fn balance_in(records: &Vec<Record>, scope: Scope, key: &Vec<char>) -> (sum: i128)
    ensures
        sum == total(entries(records@).filter(scope.picks(key@))),
{
    let mut sum: i128 = 0;
    let mut i: usize = 0;
    let ghost pick = scope.picks(key@);
    proof {
        reveal(Seq::filter);
        assert(entries(records@.take(0)) =~= Seq::<Entry>::empty());
    }
    while i < records.len()
        invariant
            i <= records.len(),
            pick == scope.picks(key@),
            sum == total(entries(records@.take(i as int)).filter(pick)),
            -(i * 0x8000_0000_0000_0000) <= sum <= i * 0x8000_0000_0000_0000,
        decreases records.len() - i,
    {
        proof {
            lemma_entries_take(records@, i as int);
            lemma_picked_total_push(entries(records@.take(i as int)), records@[i as int]@, pick);
        }
        if scope.takes(key, &records[i]) {
            sum = sum + records[i].income as i128;
        }
        i += 1;
    }
    proof {
        assert(records@.take(records.len() as int) =~= records@);
    }
    sum
}

/// Picking every entry picks the whole sequence.
pub proof fn lemma_pick_all(es: Seq<Entry>)
    ensures
        es.filter(any_entry()) == es,
    decreases es.len(),
{
    reveal(Seq::filter);
    if es.len() > 0 {
        lemma_pick_all(es.drop_last());
        assert(es.drop_last().push(es.last()) =~= es);
    }
}

/// The sum of all incomes.
pub fn total_balance(records: &Vec<Record>) -> (sum: i128)
    ensures
        sum == total(entries(records@)),
{
    let key: Vec<char> = Vec::new();
    proof {
        lemma_pick_all(entries(records@));
    }
    balance_in(records, Scope::All, &key)
}

/// The sum of the incomes of the records dated exactly `date`.
pub fn day_balance(records: &Vec<Record>, date: &str) -> (sum: i128)
    ensures
        sum == total(entries(records@).filter(dated(date@))),
{
    let key = chars_of(date);
    balance_in(records, Scope::Day, &key)
}

/// The sum of the incomes of the records whose date starts with
/// `year_month`, as text.
pub fn month_balance(records: &Vec<Record>, year_month: &str) -> (sum: i128)
    ensures
        sum == total(entries(records@).filter(date_starts(year_month@))),
{
    let key = chars_of(year_month);
    balance_in(records, Scope::DatePrefix, &key)
}

/// The sum of the incomes of the records that `boss` paid.
pub fn boss_balance(records: &Vec<Record>, boss: &str) -> (sum: i128)
    ensures
        sum == total(entries(records@).filter(paid_by(boss@))),
{
    let key = chars_of(boss);
    balance_in(records, Scope::Boss, &key)
}

/// The records whose date starts with `year_month`, as text, in their order.
pub fn records_in_month(records: &Vec<Record>, year_month: &str) -> (chosen: Vec<Record>)
    ensures
        entries(chosen@) == entries(records@).filter(date_starts(year_month@)),
        canonical(entries(records@)) ==> canonical(entries(chosen@)),
{
    let key = chars_of(year_month);
    let ghost pick = date_starts(year_month@);
    let mut chosen: Vec<Record> = Vec::new();
    let mut i: usize = 0;
    proof {
        reveal(Seq::filter);
        assert(entries(records@.take(0)) =~= Seq::<Entry>::empty());
        assert(entries(chosen@) =~= Seq::<Entry>::empty());
    }
    while i < records.len()
        invariant
            i <= records.len(),
            key@ == year_month@,
            pick == date_starts(year_month@),
            entries(chosen@) == entries(records@.take(i as int)).filter(pick),
        decreases records.len() - i,
    {
        let ghost before = entries(records@.take(i as int));
        let ghost so_far = chosen@;
        proof {
            lemma_entries_take(records@, i as int);
            reveal(Seq::filter);
            assert(before.push(records@[i as int]@).drop_last() =~= before);
        }
        let date = chars_of(records[i].date.as_str());
        if has_prefix(&date, &key) {
            chosen.push(records[i].duplicate());
            proof {
                assert(entries(chosen@) =~= entries(so_far).push(records@[i as int]@));
            }
        }
        i += 1;
    }
    proof {
        assert(records@.take(records.len() as int) =~= records@);
        if canonical(entries(records@)) {
            lemma_filter_keeps_order(entries(records@), pick);
        }
    }
    chosen
}

/// The sum of the times of `es`, in tenths of an hour, entries without a
/// time counting for nothing.
pub open spec fn total_time(es: Seq<Entry>) -> nat
    decreases es.len(),
{
    if es.len() == 0 {
        0
    } else {
        total_time(es.drop_last()) + match es.last().duration {
            Some(tenths) => tenths,
            None => 0nat,
        }
    }
}

/// What was done on one day: how many entries there are, and how much time
/// they took in all, in tenths of an hour.
#[derive(Debug, Clone, Copy, PartialEq, Eq)]
pub struct DayWork {
    pub entries: usize,
    pub tenths: u128,
}

/// The number of the records dated exactly `date`, and the sum of their
/// times.
pub fn day_work(records: &Vec<Record>, date: &str) -> (work: DayWork)
    ensures
        work.entries == entries(records@).filter(dated(date@)).len(),
        work.tenths == total_time(entries(records@).filter(dated(date@))),
{
    let key = chars_of(date);
    let ghost pick = dated(date@);
    let mut count: usize = 0;
    let mut tenths: u128 = 0;
    let mut i: usize = 0;
    proof {
        reveal(Seq::filter);
        assert(entries(records@.take(0)) =~= Seq::<Entry>::empty());
    }
    while i < records.len()
        invariant
            i <= records.len(),
            key@ == date@,
            pick == dated(date@),
            count == entries(records@.take(i as int)).filter(pick).len(),
            count <= i,
            tenths == total_time(entries(records@.take(i as int)).filter(pick)),
            tenths <= i * 0xFFFF_FFFF,
        decreases records.len() - i,
    {
        let ghost before = entries(records@.take(i as int));
        proof {
            lemma_entries_take(records@, i as int);
            reveal(Seq::filter);
            assert(before.push(records@[i as int]@).drop_last() =~= before);
            assert(before.filter(pick).push(records@[i as int]@).drop_last() =~= before.filter(
                pick,
            ));
        }
        let day = chars_of(records[i].date.as_str());
        if same_chars(&day, &key) {
            count += 1;
            match records[i].duration {
                Some(d) => {
                    tenths = tenths + d as u128;
                },
                None => {},
            }
        }
        i += 1;
    }
    proof {
        assert(records@.take(records.len() as int) =~= records@);
    }
    DayWork { entries: count, tenths }
}

/// The total of a sequence from `i` on is the income at `i` plus the total
/// of what follows.
pub proof fn lemma_total_skip(es: Seq<Entry>, i: int)
    requires
        0 <= i < es.len(),
    ensures
        total(es.skip(i)) == es[i].income + total(es.skip(i + 1)),
    decreases es.len() - i,
{
    let tail = es.skip(i);
    if i == es.len() - 1 {
        assert(tail.drop_last() =~= es.skip(i + 1));
    } else {
        lemma_total_skip(es.drop_last(), i);
        assert(tail.drop_last() =~= es.drop_last().skip(i));
        assert(es.skip(i + 1).drop_last() =~= es.drop_last().skip(i + 1));
    }
}

/// The running balance down `records`: at each place the sum of the income
/// there and of all incomes after it. With the latest record first, the
/// first balance is the total and the last is the oldest income.
pub fn running_balances(records: &Vec<Record>) -> (balances: Vec<i128>)
    ensures
        balances.len() == records.len(),
        forall|i: int|
            0 <= i < balances.len() ==> #[trigger] balances[i] == total(
                entries(records@).skip(i),
            ),
{
    let n = records.len();
    let ghost es = entries(records@);
    let mut balances: Vec<i128> = Vec::new();
    let mut k: usize = 0;
    while k < n
        invariant
            k <= n,
            balances.len() == k,
        decreases n - k,
    {
        balances.push(0);
        k += 1;
    }
    let mut sum: i128 = 0;
    let mut i: usize = n;
    proof {
        assert(es.skip(n as int) =~= Seq::<Entry>::empty());
    }
    while i > 0
        invariant
            i <= n == records.len() == balances.len(),
            es == entries(records@),
            sum == total(es.skip(i as int)),
            -((n - i) * 0x8000_0000_0000_0000) <= sum <= (n - i) * 0x8000_0000_0000_0000,
            forall|j: int| i <= j < n ==> #[trigger] balances[j] == total(es.skip(j)),
        decreases i,
    {
        i -= 1;
        proof {
            lemma_total_skip(es, i as int);
        }
        sum = sum + records[i].income as i128;
        balances.set(i, sum);
    }
    balances
}

/// A boss and the sum of what the boss paid.
#[derive(Debug, Clone)]
pub struct BossBalance {
    pub boss: String,
    pub balance: i128,
}

/// The bosses of `es`, each once, in the order in which they first appear.
pub open spec fn bosses(es: Seq<Entry>) -> Seq<Seq<char>>
    decreases es.len(),
{
    if es.len() == 0 {
        Seq::empty()
    } else {
        let before = bosses(es.drop_last());
        if before.contains(es.last().boss) {
            before
        } else {
            before.push(es.last().boss)
        }
    }
}

/// For each boss of `es`, in the order of `bosses`, the sum of what the
/// boss paid.
pub open spec fn boss_totals(es: Seq<Entry>) -> Seq<int> {
    Seq::new(bosses(es).len(), |k: int| total(es.filter(paid_by(bosses(es)[k]))))
}

/// The sum of the numbers `s`.
pub open spec fn sum_of(s: Seq<int>) -> int
    decreases s.len(),
{
    if s.len() == 0 {
        0
    } else {
        sum_of(s.drop_last()) + s.last()
    }
}

/// No boss occurs twice among `bosses(es)`.
pub proof fn lemma_bosses_distinct(es: Seq<Entry>)
    ensures
        bosses(es).no_duplicates(),
    decreases es.len(),
{
    if es.len() > 0 {
        lemma_bosses_distinct(es.drop_last());
    }
}

/// The boss of every entry is among `bosses(es)`, and every one of
/// `bosses(es)` is the boss of an entry.
pub proof fn lemma_bosses_cover(es: Seq<Entry>)
    ensures
        forall|i: int| 0 <= i < es.len() ==> bosses(es).contains(#[trigger] es[i].boss),
        forall|k: int|
            0 <= k < bosses(es).len() ==> exists|i: int|
                0 <= i < es.len() && es[i].boss == #[trigger] bosses(es)[k],
    decreases es.len(),
{
    if es.len() > 0 {
        let init = es.drop_last();
        let before = bosses(init);
        lemma_bosses_cover(init);
        assert forall|i: int| 0 <= i < es.len() implies bosses(es).contains(
            #[trigger] es[i].boss,
        ) by {
            if i < es.len() - 1 {
                assert(es[i] == init[i]);
                let k = choose|k: int| 0 <= k < before.len() && before[k] == init[i].boss;
                assert(bosses(es)[k] == es[i].boss);
            } else if before.contains(es.last().boss) {
            } else {
                assert(bosses(es)[before.len() as int] == es[i].boss);
            }
        }
        assert forall|k: int| 0 <= k < bosses(es).len() implies exists|i: int|
            0 <= i < es.len() && es[i].boss == #[trigger] bosses(es)[k] by {
            if k < before.len() {
                assert(bosses(es)[k] == before[k]);
                let i = choose|i: int| 0 <= i < init.len() && init[i].boss == before[k];
                assert(es[i].boss == bosses(es)[k]);
            } else {
                assert(es[es.len() - 1].boss == bosses(es)[k]);
            }
        }
    }
}

/// A boss who is not among `bosses(es)` paid nothing.
pub proof fn lemma_stranger_paid_nothing(es: Seq<Entry>, boss: Seq<char>)
    requires
        !bosses(es).contains(boss),
    ensures
        total(es.filter(paid_by(boss))) == 0,
    decreases es.len(),
{
    reveal(Seq::filter);
    if es.len() > 0 {
        let init = es.drop_last();
        lemma_bosses_cover(es);
        assert(es.last().boss != boss);
        if bosses(init).contains(boss) {
            let k = choose|k: int| 0 <= k < bosses(init).len() && bosses(init)[k] == boss;
            assert(bosses(es)[k] == boss);
        }
        lemma_stranger_paid_nothing(init, boss);
    }
}

/// What one more entry does to the sums per boss: the sum of its boss grows
/// by its income, or its boss is new and comes last with that income.
pub proof fn lemma_boss_totals_push(es: Seq<Entry>, e: Entry)
    ensures
        bosses(es).contains(e.boss) ==> {
            let j = bosses(es).index_of(e.boss);
            &&& bosses(es.push(e)) == bosses(es)
            &&& boss_totals(es.push(e)) == boss_totals(es).update(j, boss_totals(es)[j] + e.income)
        },
        !bosses(es).contains(e.boss) ==> {
            &&& bosses(es.push(e)) == bosses(es).push(e.boss)
            &&& boss_totals(es.push(e)) == boss_totals(es).push(e.income)
        },
{
    let more = es.push(e);
    assert(more.drop_last() =~= es);
    lemma_bosses_distinct(es);
    if bosses(es).contains(e.boss) {
        let j = bosses(es).index_of(e.boss);
        assert(bosses(more) == bosses(es));
        assert forall|k: int| 0 <= k < bosses(es).len() implies #[trigger] boss_totals(more)[k]
            == boss_totals(es).update(j, boss_totals(es)[j] + e.income)[k] by {
            lemma_picked_total_push(es, e, paid_by(bosses(es)[k]));
        }
        assert(boss_totals(more) =~= boss_totals(es).update(j, boss_totals(es)[j] + e.income));
    } else {
        assert(bosses(more) == bosses(es).push(e.boss));
        assert forall|k: int| 0 <= k < bosses(more).len() implies #[trigger] boss_totals(more)[k]
            == boss_totals(es).push(e.income)[k] by {
            lemma_picked_total_push(es, e, paid_by(bosses(more)[k]));
            if k == bosses(es).len() {
                lemma_stranger_paid_nothing(es, e.boss);
            } else {
                assert(bosses(es)[k] != e.boss);
            }
        }
        assert(boss_totals(more) =~= boss_totals(es).push(e.income));
    }
}

/// Adding `d` to one of the numbers adds `d` to their sum.
pub proof fn lemma_sum_of_update(s: Seq<int>, j: int, d: int)
    requires
        0 <= j < s.len(),
    ensures
        sum_of(s.update(j, s[j] + d)) == sum_of(s) + d,
    decreases s.len(),
{
    let t = s.update(j, s[j] + d);
    if j == s.len() - 1 {
        assert(t.drop_last() =~= s.drop_last());
    } else {
        lemma_sum_of_update(s.drop_last(), j, d);
        assert(t.drop_last() =~= s.drop_last().update(j, s[j] + d));
    }
}

/// The sums per boss add up to the total: every income belongs to exactly
/// one boss.
pub proof fn lemma_boss_totals_sum(es: Seq<Entry>)
    ensures
        sum_of(boss_totals(es)) == total(es),
    decreases es.len(),
{
    if es.len() == 0 {
        assert(boss_totals(es) =~= Seq::<int>::empty());
    } else {
        let init = es.drop_last();
        let e = es.last();
        assert(init.push(e) =~= es);
        lemma_boss_totals_sum(init);
        lemma_boss_totals_push(init, e);
        if bosses(init).contains(e.boss) {
            lemma_sum_of_update(boss_totals(init), bosses(init).index_of(e.boss), e.income);
        } else {
            assert(boss_totals(init).push(e.income).drop_last() =~= boss_totals(init));
        }
    }
}

/// Whether `table` holds one line for each boss of `es`, in the order in
/// which the bosses first appear, each with the sum of what the boss paid.
pub open spec fn is_boss_table(table: Seq<BossBalance>, es: Seq<Entry>) -> bool {
    &&& table.len() == bosses(es).len()
    &&& forall|k: int|
        0 <= k < table.len() ==> {
            &&& (#[trigger] table[k]).boss@ == bosses(es)[k]
            &&& table[k].balance == boss_totals(es)[k]
        }
}

/// The balances of the lines of `table`, in order.
pub open spec fn line_balances(table: Seq<BossBalance>) -> Seq<int> {
    table.map_values(|line: BossBalance| line.balance as int)
}

/// The balances of a boss table add up to the total balance, and no boss
/// has two lines.
pub proof fn lemma_boss_table_sums_to_total(table: Seq<BossBalance>, es: Seq<Entry>)
    requires
        is_boss_table(table, es),
    ensures
        sum_of(line_balances(table)) == total(es),
        forall|j: int, k: int|
            0 <= j < k < table.len() ==> (#[trigger] table[j]).boss@ != (#[trigger] table[k]).boss@,
{
    assert(line_balances(table) =~= boss_totals(es));
    lemma_boss_totals_sum(es);
    lemma_bosses_distinct(es);
}

/// The entries that `pick` takes and those that it leaves share the total
/// between them.
pub proof fn lemma_total_splits(es: Seq<Entry>, pick: spec_fn(Entry) -> bool)
    ensures
        total(es) == total(es.filter(pick)) + total(es.filter(|e: Entry| !pick(e))),
    decreases es.len(),
{
    let rest = |e: Entry| !pick(e);
    reveal(Seq::filter);
    if es.len() > 0 {
        let init = es.drop_last();
        assert(init.push(es.last()) =~= es);
        lemma_total_splits(init, pick);
        lemma_picked_total_push(init, es.last(), pick);
        lemma_picked_total_push(init, es.last(), rest);
        assert(init.filter(|e: Entry| !pick(e)) == init.filter(rest));
    }
}

/// The place of `key` among `keys`, if it is there.
fn find_key(keys: &Vec<Vec<char>>, key: &Vec<char>) -> (r: Option<usize>)
    ensures
        r matches Some(j) ==> j < keys.len() && keys@[j as int]@ == key@,
        r is None ==> forall|k: int| 0 <= k < keys.len() ==> (#[trigger] keys@[k])@ != key@,
{
    let mut j: usize = 0;
    while j < keys.len()
        invariant
            j <= keys.len(),
            forall|k: int| 0 <= k < j ==> (#[trigger] keys@[k])@ != key@,
        decreases keys.len() - j,
    {
        if same_chars(&keys[j], key) {
            return Some(j);
        }
        j += 1;
    }
    None
}

/// The sum of what each boss paid: one line for each boss, in the order in
/// which the bosses first appear in `records`.
pub fn boss_balances(records: &Vec<Record>) -> (table: Vec<BossBalance>)
    ensures
        is_boss_table(table@, entries(records@)),
{
    let mut keys: Vec<Vec<char>> = Vec::new();
    let mut table: Vec<BossBalance> = Vec::new();
    let mut i: usize = 0;
    proof {
        assert(entries(records@.take(0)) =~= Seq::<Entry>::empty());
    }
    while i < records.len()
        invariant
            i <= records.len(),
            keys.len() == table.len() == bosses(entries(records@.take(i as int))).len(),
            forall|k: int|
                0 <= k < keys.len() ==> (#[trigger] keys@[k])@ == bosses(
                    entries(records@.take(i as int)),
                )[k],
            forall|k: int|
                0 <= k < table.len() ==> {
                    &&& (#[trigger] table[k]).boss@ == bosses(entries(records@.take(i as int)))[k]
                    &&& table[k].balance == boss_totals(entries(records@.take(i as int)))[k]
                    &&& -(i * 0x8000_0000_0000_0000) <= table[k].balance <= i
                        * 0x8000_0000_0000_0000
                },
        decreases records.len() - i,
    {
        let ghost es = entries(records@.take(i as int));
        let ghost e = records@[i as int]@;
        proof {
            lemma_entries_take(records@, i as int);
            lemma_boss_totals_push(es, e);
            lemma_bosses_distinct(es);
        }
        let key = chars_of(records[i].boss.as_str());
        match find_key(&keys, &key) {
            Some(j) => {
                proof {
                    assert(bosses(es)[j as int] == e.boss);
                    assert(bosses(es).index_of(e.boss) == j);
                }
                let line = BossBalance {
                    boss: table[j].boss.clone(),
                    balance: table[j].balance + records[i].income as i128,
                };
                table.set(j, line);
            },
            None => {
                proof {
                    if bosses(es).contains(e.boss) {
                        let k = bosses(es).index_of(e.boss);
                        assert(keys@[k]@ == e.boss);
                    }
                }
                table.push(
                    BossBalance {
                        boss: records[i].boss.clone(),
                        balance: records[i].income as i128,
                    },
                );
                keys.push(key);
            },
        }
        i += 1;
    }
    proof {
        assert(records@.take(records.len() as int) =~= records@);
    }
    table
}

/// The balances shown above the list: in all, of today, of the month
/// looked at, and of each boss.
#[derive(Debug, Clone)]
pub struct Balances {
    pub total_balance: i128,
    pub day_balance: i128,
    pub month_balance: i128,
    pub boss_balances: Vec<BossBalance>,
}

/// The balances of `records` for the day `today` and for month `month` of
/// year `year`.
pub fn summarize(records: &Vec<Record>, today: &Date, year: i32, month: u32) -> (b: Balances)
    ensures
        b.total_balance == total(entries(records@)),
        b.day_balance == total(entries(records@).filter(dated(today@.text()))),
        b.month_balance == total(
            entries(records@).filter(date_starts(month_key_text(year as int, month as int))),
        ),
        is_boss_table(b.boss_balances@, entries(records@)),
{
    let day = today.iso();
    let key = month_key(year, month);
    Balances {
        total_balance: total_balance(records),
        day_balance: day_balance(records, day.as_str()),
        month_balance: month_balance(records, key.as_str()),
        boss_balances: boss_balances(records),
    }
}

} // verus!
