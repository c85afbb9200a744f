//! The ledger: append-only transactions and their derived aggregates.

use vstd::prelude::*;
use vstd::math::abs;
use crate::kind::TransactionKind;

verus! {

/// One recorded financial event, immutable once created.
///
/// `amount_cents` is the signed amount in cents.  By convention an
/// expense is stored as a positive magnitude tagged by `kind`, but no
/// sign is validated: a negative amount is accepted as-is.  `date` and
/// `description` are free text, unvalidated; `category` is free text
/// acting as a grouping key; `is_recurring` is informational only and
/// enters no aggregate.
#[derive(Clone, Debug)]
pub struct Transaction {
    pub id: u32,
    pub description: String,
    pub amount_cents: i64,
    pub is_recurring: bool,
    pub date: String,
    pub kind: TransactionKind,
    pub category: String,
}

/// The sum of all amounts, regardless of kind.
pub open spec fn sum_amounts(s: Seq<Transaction>) -> int
    decreases s.len(),
{
    if s.len() == 0 {
        0
    } else {
        sum_amounts(s.drop_last()) + s.last().amount_cents
    }
}

/// The sum of the amounts of the income transactions.
pub open spec fn sum_income(s: Seq<Transaction>) -> int
    decreases s.len(),
{
    if s.len() == 0 {
        0
    } else {
        sum_income(s.drop_last()) + if s.last().kind is Income {
            s.last().amount_cents as int
        } else {
            0
        }
    }
}

/// The sum of the amounts of the expense transactions.
pub open spec fn sum_expense(s: Seq<Transaction>) -> int
    decreases s.len(),
{
    if s.len() == 0 {
        0
    } else {
        sum_expense(s.drop_last()) + if s.last().kind is Expense {
            s.last().amount_cents as int
        } else {
            0
        }
    }
}

/// The sum of the absolute amounts; it bounds every other aggregate.
pub open spec fn sum_abs(s: Seq<Transaction>) -> int
    decreases s.len(),
{
    if s.len() == 0 {
        0
    } else {
        sum_abs(s.drop_last()) + abs(s.last().amount_cents as int)
    }
}

/// The signed sum of the amounts recorded under one category, across
/// both kinds.
pub open spec fn sum_category(s: Seq<Transaction>, c: Seq<char>) -> int
    decreases s.len(),
{
    if s.len() == 0 {
        0
    } else {
        sum_category(s.drop_last(), c) + if s.last().category@ == c {
            s.last().amount_cents as int
        } else {
            0
        }
    }
}

/// The distinct categories of the transactions, in first-insertion
/// order.
pub open spec fn seen_categories(s: Seq<Transaction>) -> Seq<Seq<char>>
    decreases s.len(),
{
    if s.len() == 0 {
        Seq::empty()
    } else {
        let pre = seen_categories(s.drop_last());
        if pre.contains(s.last().category@) {
            pre
        } else {
            pre.push(s.last().category@)
        }
    }
}

/// Every aggregate is bounded in magnitude by the sum of the absolute
/// amounts.
pub proof fn lemma_sum_bounds(s: Seq<Transaction>)
    ensures
        sum_abs(s) >= 0,
        abs(sum_amounts(s)) <= sum_abs(s),
        abs(sum_income(s)) <= sum_abs(s),
        abs(sum_expense(s)) <= sum_abs(s),
        abs(sum_income(s) - sum_expense(s)) <= sum_abs(s),
    decreases s.len(),
{
    if s.len() > 0 {
        lemma_sum_bounds(s.drop_last());
    }
}

/// A single category's total is bounded by the sum of the absolute
/// amounts.
pub proof fn lemma_sum_category_bound(s: Seq<Transaction>, c: Seq<char>)
    ensures
        abs(sum_category(s, c)) <= sum_abs(s),
    decreases s.len(),
{
    if s.len() > 0 {
        lemma_sum_category_bound(s.drop_last(), c);
        lemma_sum_bounds(s.drop_last());
    }
}

/// Partition law: every transaction is income or expense, so the two
/// totals together sum every amount.
pub proof fn lemma_income_expense_partition(s: Seq<Transaction>)
    ensures
        sum_income(s) + sum_expense(s) == sum_amounts(s),
    decreases s.len(),
{
    if s.len() > 0 {
        lemma_income_expense_partition(s.drop_last());
    }
}

/// How each running sum grows by one transaction.
pub proof fn lemma_sums_take_succ(s: Seq<Transaction>, i: int)
    requires
        0 <= i < s.len(),
    ensures
        sum_amounts(s.take(i + 1)) == sum_amounts(s.take(i)) + s[i].amount_cents,
        sum_income(s.take(i + 1)) == sum_income(s.take(i)) + if s[i].kind is Income {
            s[i].amount_cents as int
        } else {
            0
        },
        sum_expense(s.take(i + 1)) == sum_expense(s.take(i)) + if s[i].kind is Expense {
            s[i].amount_cents as int
        } else {
            0
        },
        sum_abs(s.take(i + 1)) == sum_abs(s.take(i)) + abs(s[i].amount_cents as int),
{
    assert(s.take(i + 1).drop_last() =~= s.take(i));
    assert(s.take(i + 1).last() == s[i]);
}

/// The sum of absolute amounts over a prefix never exceeds the whole.
pub proof fn lemma_sum_abs_prefix_le(s: Seq<Transaction>, i: int)
    requires
        0 <= i <= s.len(),
    ensures
        sum_abs(s.take(i)) <= sum_abs(s),
    decreases s.len() - i,
{
    if i == s.len() {
        assert(s.take(i) =~= s);
    } else {
        lemma_sums_take_succ(s, i);
        lemma_sum_abs_prefix_le(s, i + 1);
    }
}

/// Completeness law: the seen categories are exactly the categories of
/// the recorded transactions.
pub proof fn lemma_seen_categories_iff(s: Seq<Transaction>, c: Seq<char>)
    ensures
        seen_categories(s).contains(c) <==> (exists|i: int|
            0 <= i < s.len() && (#[trigger] s[i]).category@ == c),
    decreases s.len(),
{
    if s.len() == 0 {
    } else {
        let pre = s.drop_last();
        let lastc = s.last().category@;
        lemma_seen_categories_iff(pre, c);
        if seen_categories(s).contains(c) {
            if seen_categories(pre).contains(c) {
                let i = choose|i: int| 0 <= i < pre.len() && pre[i].category@ == c;
                assert(s[i].category@ == c);
            } else {
                // c can only be the pushed last category
                let j = choose|j: int|
                    0 <= j < seen_categories(s).len() && seen_categories(s)[j] == c;
                assert(c == lastc);
                assert(s[s.len() - 1].category@ == c);
            }
        }
        if exists|i: int| 0 <= i < s.len() && (#[trigger] s[i]).category@ == c {
            let i = choose|i: int| 0 <= i < s.len() && (#[trigger] s[i]).category@ == c;
            if i < s.len() - 1 {
                assert(pre[i].category@ == c);
                assert(seen_categories(pre).contains(c));
                let j = choose|j: int|
                    0 <= j < seen_categories(pre).len() && seen_categories(pre)[j] == c;
                assert(seen_categories(s)[j] == c);
            } else {
                if seen_categories(pre).contains(lastc) {
                    let j = choose|j: int|
                        0 <= j < seen_categories(pre).len() && seen_categories(pre)[j] == lastc;
                    assert(seen_categories(s)[j] == c);
                } else {
                    assert(seen_categories(s).last() == c);
                }
            }
        }
    }
}

/// Uniqueness law: no category appears twice among the seen categories.
pub proof fn lemma_seen_categories_distinct(s: Seq<Transaction>)
    ensures
        forall|i: int, j: int|
            0 <= i < j < seen_categories(s).len() ==> seen_categories(s)[i]
                != seen_categories(s)[j],
    decreases s.len(),
{
    if s.len() > 0 {
        let pre = s.drop_last();
        let lastc = s.last().category@;
        lemma_seen_categories_distinct(pre);
        if !seen_categories(pre).contains(lastc) {
            assert forall|i: int, j: int|
                0 <= i < j < seen_categories(s).len() implies seen_categories(s)[i]
                != seen_categories(s)[j] by {
                if j == seen_categories(s).len() - 1 {
                    assert(seen_categories(pre)[i] != lastc);
                }
            }
        }
    }
}

/// A category never recorded has a zero running total.
proof fn lemma_unseen_category_sum_zero(s: Seq<Transaction>, c: Seq<char>)
    requires
        !seen_categories(s).contains(c),
    ensures
        sum_category(s, c) == 0,
    decreases s.len(),
{
    if s.len() > 0 {
        let pre = s.drop_last();
        let lastc = s.last().category@;
        // the last category is always seen, so c differs from it
        if seen_categories(pre).contains(lastc) {
            let j = choose|j: int|
                0 <= j < seen_categories(pre).len() && seen_categories(pre)[j] == lastc;
            assert(seen_categories(s)[j] == lastc);
        } else {
            assert(seen_categories(s).last() == lastc);
        }
        assert(seen_categories(s).contains(lastc));
        // and c is unseen among the earlier transactions as well
        if seen_categories(pre).contains(c) {
            let j = choose|j: int|
                0 <= j < seen_categories(pre).len() && seen_categories(pre)[j] == c;
            assert(seen_categories(s)[j] == c);
        }
        lemma_unseen_category_sum_zero(pre, c);
    }
}

/// The in-memory ledger: the recorded transactions in insertion order,
/// with an incrementally maintained per-category total table.
#[derive(Debug)]
pub struct FinanceTracker {
    transactions: Vec<Transaction>,
    category_totals: Vec<(String, i64)>,
    abs_total: i64,
    next_id: u32,
}

impl View for FinanceTracker {
    type V = Seq<Transaction>;

    /// A ledger is modelled by its transaction sequence alone: every
    /// aggregate is a function of it.
    closed spec fn view(&self) -> Seq<Transaction> {
        self.transactions@
    }
}

impl FinanceTracker {
    /// Well-formedness: ids are 1-based insertion ranks, the cached
    /// sums fit their machine words, and the category table carries the
    /// seen categories in first-insertion order with their running
    /// totals.
    pub closed spec fn wf(&self) -> bool {
        &&& self.next_id as int == self.transactions@.len() + 1
        &&& forall|i: int|
            0 <= i < self.transactions@.len() ==> (#[trigger] self.transactions@[i]).id as int == i
                + 1
        &&& sum_abs(self.transactions@) <= i64::MAX as int
        &&& self.abs_total as int == sum_abs(self.transactions@)
        &&& self.category_totals@.len() == seen_categories(self.transactions@).len()
        &&& forall|i: int|
            0 <= i < self.category_totals@.len() ==> (#[trigger] self.category_totals@[i]).0@
                == seen_categories(self.transactions@)[i]
        &&& forall|i: int|
            0 <= i < self.category_totals@.len() ==> (#[trigger] self.category_totals@[i]).1 as int
                == sum_category(self.transactions@, self.category_totals@[i].0@)
    }

    /// An empty ledger; the first transaction will receive id 1.
    pub fn new() -> (t: FinanceTracker)
        ensures
            t.wf(),
            t@ == Seq::<Transaction>::empty(),
    {
        let t = FinanceTracker {
            transactions: Vec::new(),
            category_totals: Vec::new(),
            abs_total: 0,
            next_id: 1,
        };
        proof {
            assert(t.transactions@ =~= Seq::<Transaction>::empty());
        }
        t
    }

    /// Appends a transaction with the next 1-based id, keeps the
    /// per-category totals current, and cannot otherwise fail.  The two
    /// preconditions are machine limits alone: the id counter and the
    /// cached sum of absolute amounts must still fit their words; see
    /// [`FinanceTracker::try_add_transaction`] for the checked form.
    pub fn add_transaction(
        &mut self,
        description: String,
        amount_cents: i64,
        is_recurring: bool,
        date: String,
        kind: TransactionKind,
        category: String,
    )
        requires
            old(self).wf(),
            old(self)@.len() + 2 <= u32::MAX as int,
            sum_abs(old(self)@) + abs(amount_cents as int) <= i64::MAX as int,
        ensures
            final(self).wf(),
            final(self)@ == old(self)@.push(
                (Transaction {
                    id: (old(self)@.len() + 1) as u32,
                    description: description,
                    amount_cents: amount_cents,
                    is_recurring: is_recurring,
                    date: date,
                    kind: kind,
                    category: category,
                }),
            ),
            sum_amounts(final(self)@) == sum_amounts(old(self)@) + amount_cents,
            sum_income(final(self)@) == sum_income(old(self)@) + if kind is Income {
                amount_cents as int
            } else {
                0
            },
            sum_expense(final(self)@) == sum_expense(old(self)@) + if kind is Expense {
                amount_cents as int
            } else {
                0
            },
            sum_abs(final(self)@) == sum_abs(old(self)@) + abs(amount_cents as int),
            sum_category(final(self)@, category@) == sum_category(old(self)@, category@)
                + amount_cents,
            forall|c: Seq<char>|
                c != category@ ==> #[trigger] sum_category(final(self)@, c) == sum_category(
                    old(self)@,
                    c,
                ),
    {
        let ghost s0 = self.transactions@;
        let ghost c = category@;
        let ghost totals0 = self.category_totals@;
        let ghost txg = Transaction {
            id: (s0.len() + 1) as u32,
            description: description,
            amount_cents: amount_cents,
            is_recurring: is_recurring,
            date: date,
            kind: kind,
            category: category,
        };

        proof {
            lemma_sum_bounds(s0);
            lemma_sum_category_bound(s0, c);
        }

        // Locate the category's slot, if it is already known.
        let m = self.category_totals.len();
        let mut idx: usize = 0;
        let mut found = false;
        let mut pos: usize = 0;
        while idx < m && !found
            invariant
                idx <= m,
                m == self.category_totals@.len(),
                *self == *old(self),
                category@ == c,
                found ==> pos < m && self.category_totals@[pos as int].0@ == c,
                !found ==> forall|k: int|
                    0 <= k < idx ==> (#[trigger] self.category_totals@[k]).0@ != c,
            decreases m - idx,
        {
            if self.category_totals[idx].0 == category {
                found = true;
                pos = idx;
            }
            idx += 1;
        }

        // Record the transaction.
        let id = self.next_id;
        self.next_id = self.next_id + 1;
        if amount_cents >= 0 {
            self.abs_total = self.abs_total + amount_cents;
        } else {
            self.abs_total = self.abs_total - amount_cents;
        }
        if found {
            let cur = self.category_totals[pos].1;
            proof {
                assert(totals0[pos as int].0@ == c);
                assert(cur as int == sum_category(s0, c));
            }
            self.category_totals[pos].1 = cur + amount_cents;
        } else {
            let cat = category.clone();
            self.category_totals.push((cat, amount_cents));
        }
        let tx = Transaction { id, description, amount_cents, is_recurring, date, kind, category };
        self.transactions.push(tx);

        proof {
            let s2 = self.transactions@;
            assert(s2 == s0.push(txg));
            assert(s2.drop_last() =~= s0);
            assert(s2.last() == txg);
            assert forall|i: int| 0 <= i < s2.len() implies (#[trigger] s2[i]).id as int == i
                + 1 by {
                if i < s0.len() {
                    assert(s2[i] == s0[i]);
                }
            }
            assert(sum_abs(s2) == sum_abs(s0) + abs(amount_cents as int));
            let seen0 = seen_categories(s0);
            let seen2 = seen_categories(s2);
            let totals2 = self.category_totals@;
            if found {
                assert(seen0[pos as int] == c);
                assert(seen0.contains(c));
                assert(seen2 == seen0);
                lemma_seen_categories_distinct(s0);
                assert forall|i: int| 0 <= i < totals2.len() implies (#[trigger] totals2[i]).0@
                    == seen2[i] && totals2[i].1 as int == sum_category(s2, totals2[i].0@) by {
                    if i == pos {
                        assert(totals2[i].0 == totals0[i].0);
                        assert(totals2[i].1 as int == sum_category(s0, c) + amount_cents);
                        assert(sum_category(s2, c) == sum_category(s0, c) + amount_cents);
                    } else {
                        assert(totals2[i] == totals0[i]);
                        assert(seen0[i] != seen0[pos as int]);
                        assert(sum_category(s2, totals2[i].0@) == sum_category(
                            s0,
                            totals2[i].0@,
                        ));
                    }
                }
            } else {
                assert(!seen0.contains(c)) by {
                    if seen0.contains(c) {
                        let j = choose|j: int| 0 <= j < seen0.len() && seen0[j] == c;
                        assert(totals0[j].0@ == seen0[j]);
                    }
                }
                assert(seen2 == seen0.push(c));
                lemma_unseen_category_sum_zero(s0, c);
                assert forall|i: int| 0 <= i < totals2.len() implies (#[trigger] totals2[i]).0@
                    == seen2[i] && totals2[i].1 as int == sum_category(s2, totals2[i].0@) by {
                    if i < totals0.len() {
                        assert(totals2[i] == totals0[i]);
                        assert(seen0[i] != c) by {
                            if seen0[i] == c {
                                assert(seen0.contains(c));
                            }
                        }
                        assert(sum_category(s2, totals2[i].0@) == sum_category(
                            s0,
                            totals2[i].0@,
                        ));
                    } else {
                        assert(totals2[i].0@ == c);
                        assert(sum_category(s2, c) == sum_category(s0, c) + amount_cents);
                    }
                }
            }
            assert forall|c2: Seq<char>| c2 != c implies #[trigger] sum_category(s2, c2)
                == sum_category(s0, c2) by {
                assert(sum_category(s2, c2) == sum_category(s2.drop_last(), c2));
            }
        }
    }

    /// The checked form of [`FinanceTracker::add_transaction`]: appends
    /// exactly when the machine limits leave room — the id counter must
    /// not exhaust `u32` and the sum of absolute amounts must stay
    /// within `i64` — and says so; otherwise leaves the ledger
    /// untouched.
    pub fn try_add_transaction(
        &mut self,
        description: String,
        amount_cents: i64,
        is_recurring: bool,
        date: String,
        kind: TransactionKind,
        category: String,
    ) -> (ok: bool)
        requires
            old(self).wf(),
        ensures
            final(self).wf(),
            ok == (old(self)@.len() + 2 <= u32::MAX as int && sum_abs(old(self)@) + abs(
                amount_cents as int,
            ) <= i64::MAX as int),
            ok ==> final(self)@ == old(self)@.push(
                (Transaction {
                    id: (old(self)@.len() + 1) as u32,
                    description: description,
                    amount_cents: amount_cents,
                    is_recurring: is_recurring,
                    date: date,
                    kind: kind,
                    category: category,
                }),
            ),
            !ok ==> *final(self) == *old(self),
    {
        proof {
            lemma_sum_bounds(self.transactions@);
        }
        if self.next_id >= u32::MAX {
            return false;
        }
        if amount_cents == i64::MIN {
            return false;
        }
        let amt_abs: i64 = if amount_cents >= 0 {
            amount_cents
        } else {
            -amount_cents
        };
        if amt_abs > i64::MAX - self.abs_total {
            return false;
        }
        self.add_transaction(description, amount_cents, is_recurring, date, kind, category);
        true
    }

    /// The sum of the amounts of the income transactions; 0 on an empty
    /// ledger.
    pub fn total_income(&self) -> (r: i64)
        requires
            self.wf(),
        ensures
            r as int == sum_income(self@),
    {
        let n = self.transactions.len();
        let mut total: i64 = 0;
        let mut i: usize = 0;
        while i < n
            invariant
                self.wf(),
                i <= n,
                n == self.transactions@.len(),
                total as int == sum_income(self.transactions@.take(i as int)),
            decreases n - i,
        {
            proof {
                lemma_sums_take_succ(self.transactions@, i as int);
                lemma_sum_abs_prefix_le(self.transactions@, i as int + 1);
                lemma_sum_bounds(self.transactions@.take(i as int + 1));
            }
            let t = &self.transactions[i];
            if t.kind == TransactionKind::Income {
                total = total + t.amount_cents;
            }
            i += 1;
        }
        proof {
            assert(self.transactions@.take(n as int) =~= self.transactions@);
        }
        total
    }

    /// The sum of the amounts of the expense transactions; 0 on an
    /// empty ledger.
    pub fn total_expense(&self) -> (r: i64)
        requires
            self.wf(),
        ensures
            r as int == sum_expense(self@),
    {
        let n = self.transactions.len();
        let mut total: i64 = 0;
        let mut i: usize = 0;
        while i < n
            invariant
                self.wf(),
                i <= n,
                n == self.transactions@.len(),
                total as int == sum_expense(self.transactions@.take(i as int)),
            decreases n - i,
        {
            proof {
                lemma_sums_take_succ(self.transactions@, i as int);
                lemma_sum_abs_prefix_le(self.transactions@, i as int + 1);
                lemma_sum_bounds(self.transactions@.take(i as int + 1));
            }
            let t = &self.transactions[i];
            if t.kind == TransactionKind::Expense {
                total = total + t.amount_cents;
            }
            i += 1;
        }
        proof {
            assert(self.transactions@.take(n as int) =~= self.transactions@);
        }
        total
    }

    /// Balance law: the net balance is total income minus total
    /// expense, in every ledger state.
    pub fn net_balance(&self) -> (r: i64)
        requires
            self.wf(),
        ensures
            r as int == sum_income(self@) - sum_expense(self@),
    {
        proof {
            lemma_sum_bounds(self.transactions@);
        }
        let inc = self.total_income();
        let exp = self.total_expense();
        inc - exp
    }

    /// The sum of all amounts, regardless of kind.
    fn sum_all_cents(&self) -> (r: i64)
        requires
            self.wf(),
        ensures
            r as int == sum_amounts(self@),
    {
        let n = self.transactions.len();
        let mut total: i64 = 0;
        let mut i: usize = 0;
        while i < n
            invariant
                self.wf(),
                i <= n,
                n == self.transactions@.len(),
                total as int == sum_amounts(self.transactions@.take(i as int)),
            decreases n - i,
        {
            proof {
                lemma_sums_take_succ(self.transactions@, i as int);
                lemma_sum_abs_prefix_le(self.transactions@, i as int + 1);
                lemma_sum_bounds(self.transactions@.take(i as int + 1));
            }
            let t = &self.transactions[i];
            total = total + t.amount_cents;
            i += 1;
        }
        proof {
            assert(self.transactions@.take(n as int) =~= self.transactions@);
        }
        total
    }

    /// The arithmetic mean of all amounts, in cents truncated toward
    /// zero; exactly 0 on an empty ledger, by an explicit guard.
    pub fn average_transaction(&self) -> (r: i64)
        requires
            self.wf(),
        ensures
            self@.len() == 0 ==> r == 0,
            self@.len() > 0 ==> r as int == avg_cents(sum_amounts(self@), self@.len() as int),
    {
        let n = self.transactions.len();
        if n == 0 {
            return 0;
        }
        let total = self.sum_all_cents();
        proof {
            lemma_sum_bounds(self.transactions@);
        }
        let negative = total < 0;
        let mag: u64 = if negative {
            -total
        } else {
            total
        } as u64;
        let q = mag / (n as u64);
        proof {
            vstd::arithmetic::div_mod::lemma_div_nonincreasing(mag as int, n as int);
            vstd::arithmetic::div_mod::lemma_div_pos_is_pos(mag as int, n as int);
        }
        let q64 = q as i64;
        if negative {
            -q64
        } else {
            q64
        }
    }

    /// The per-category totals: every category ever inserted, in
    /// first-insertion order, each with the signed sum of its amounts.
    pub fn category_breakdown(&self) -> (r: &Vec<(String, i64)>)
        requires
            self.wf(),
        ensures
            r@.len() == seen_categories(self@).len(),
            forall|i: int| 0 <= i < r@.len() ==> (#[trigger] r@[i]).0@ == seen_categories(self@)[i],
            forall|i: int|
                0 <= i < r@.len() ==> (#[trigger] r@[i]).1 as int == sum_category(
                    self@,
                    r@[i].0@,
                ),
    {
        &self.category_totals
    }

    /// All transactions, in insertion order.
    pub fn get_transactions(&self) -> (r: &Vec<Transaction>)
        ensures
            r@ == self@,
    {
        &self.transactions
    }
}

/// The mean of a total over a positive count, truncated toward zero.
pub open spec fn avg_cents(total: int, n: int) -> int {
    if total >= 0 {
        total / n
    } else {
        -((-total) / n)
    }
}

/// Id law: each transaction's id is its 1-based insertion rank, so ids
/// are strictly increasing in insertion order and never reused.
pub proof fn lemma_ids_are_ranks(t: &FinanceTracker)
    requires
        t.wf(),
    ensures
        forall|i: int| 0 <= i < t@.len() ==> (#[trigger] t@[i]).id as int == i + 1,
        forall|i: int, j: int|
            #![trigger t@[i], t@[j]]
            0 <= i < j < t@.len() ==> t@[i].id < t@[j].id,
{
}

} // verus!
