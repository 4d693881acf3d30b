//! The recipe projector: a pure, deterministic read-side mapping from
//! transaction log entries to display-oriented activity records.
//!
//! One recipe is derived per transaction and never stored: every getter
//! recomputes its answer from the log alone, so a recipe can always be
//! reconstructed with no hidden state.  Sorted getters return newest
//! first by timestamp, ties broken by transaction id.

use vstd::prelude::*;
use vstd::assert_multisets_equal;

use crate::ledger::{Ledger, Transaction, TxKind};
use crate::numfmt::{dec_int, i64_to_string};

verus! {

broadcast use vstd::seq_lib::group_to_multiset_ensures;

/// A display-oriented projection of one transaction.
pub struct Recipe {
    pub id: u64,
    pub recipe_type: String,
    pub account: String,
    pub address: String,
    pub amount: i64,
    pub description: String,
    pub related_id: Option<String>,
    pub timestamp: i64,
    pub metadata: Vec<(String, String)>,
}

/// The mathematical content of a recipe.
pub ghost struct RecipeV {
    pub id: int,
    pub recipe_type: Seq<char>,
    pub account: Seq<char>,
    pub address: Seq<char>,
    pub amount: int,
    pub description: Seq<char>,
    pub related_id: Option<Seq<char>>,
    pub timestamp: int,
    pub metadata: Seq<(Seq<char>, Seq<char>)>,
}

impl View for Recipe {
    type V = RecipeV;

    open spec fn view(&self) -> RecipeV {
        RecipeV {
            id: self.id as int,
            recipe_type: self.recipe_type@,
            account: self.account@,
            address: self.address@,
            amount: self.amount as int,
            description: self.description@,
            related_id: match self.related_id {
                Some(s) => Some(s@),
                None => None,
            },
            timestamp: self.timestamp as int,
            metadata: self.metadata@.map_values(|p: (String, String)| (p.0@, p.1@)),
        }
    }
}

/// The display type of a transaction: bet settlements are split into wins
/// and losses by whether anything was paid out.
pub open spec fn kind_label(t: Transaction) -> Seq<char> {
    match t.kind {
        TxKind::Transfer => "transfer"@,
        TxKind::Deposit => "deposit"@,
        TxKind::Withdrawal => "withdrawal"@,
        TxKind::BetLock => "bet_placed"@,
        TxKind::BetSettle => if t.amount > 0 {
            "bet_won"@
        } else {
            "bet_lost"@
        },
        TxKind::AdminSet => "admin_set"@,
    }
}

/// The account a transaction is displayed under.
pub open spec fn account_label(t: Transaction) -> Seq<char> {
    match t.kind {
        TxKind::Transfer => t.from@,
        TxKind::Deposit => t.to@,
        TxKind::Withdrawal => t.from@,
        TxKind::BetLock => t.from@,
        TxKind::BetSettle => t.to@,
        TxKind::AdminSet => t.to@,
    }
}

/// The address attached to a recipe: the sender when there is one, else
/// the receiver.
pub open spec fn address_label(t: Transaction) -> Seq<char> {
    if t.from@.len() > 0 {
        t.from@
    } else {
        t.to@
    }
}

/// The market a bet transaction relates to, when there is one.
pub open spec fn related_label(t: Transaction) -> Option<Seq<char>> {
    match t.kind {
        TxKind::BetLock => Some(t.to@),
        TxKind::BetSettle => Some(t.from@),
        _ => None,
    }
}

/// The human-readable description of a transaction.
pub open spec fn description_label(t: Transaction) -> Seq<char> {
    match t.kind {
        TxKind::Transfer => "Transfer "@ + dec_int(t.amount as int) + " BB from "@ + t.from@
            + " to "@ + t.to@,
        TxKind::Deposit => "Deposit "@ + dec_int(t.amount as int) + " BB to "@ + t.to@,
        TxKind::Withdrawal => "Withdrawal "@ + dec_int(t.amount as int) + " BB from "@ + t.from@,
        TxKind::BetLock => "Bet "@ + dec_int(t.amount as int) + " BB on market "@ + t.to@,
        TxKind::BetSettle => if t.amount > 0 {
            "Bet won "@ + dec_int(t.amount as int) + " BB on market "@ + t.from@
        } else {
            "Bet lost on market "@ + t.from@
        },
        TxKind::AdminSet => "Admin set "@ + dec_int(t.amount as int) + " BB for "@ + t.to@,
    }
}

/// The key/value pairs preserved so that a recipe can be reconstructed
/// from the log alone.
pub open spec fn metadata_label(t: Transaction) -> Seq<(Seq<char>, Seq<char>)> {
    seq![("kind"@, kind_label(t)), ("from"@, t.from@), ("to"@, t.to@)]
}

/// The full projection of one transaction.
pub open spec fn recipe_of_tx(t: Transaction) -> RecipeV {
    RecipeV {
        id: t.id as int,
        recipe_type: kind_label(t),
        account: account_label(t),
        address: address_label(t),
        amount: t.amount as int,
        description: description_label(t),
        related_id: related_label(t),
        timestamp: t.timestamp as int,
        metadata: metadata_label(t),
    }
}

/// The projections of a whole log, in log order.
pub open spec fn recipes_of_log(log: Seq<Transaction>) -> Seq<RecipeV> {
    log.map_values(|t: Transaction| recipe_of_tx(t))
}

/// The views of a sequence of recipes.
pub open spec fn views_of(rs: Seq<Recipe>) -> Seq<RecipeV> {
    rs.map_values(|r: Recipe| r@)
}

/// The transactions that involve `addr` as sender or receiver.
pub open spec fn involving(log: Seq<Transaction>, addr: Seq<char>) -> Seq<Transaction> {
    log.filter(|t: Transaction| t.from@ == addr || t.to@ == addr)
}

/// The recipes whose display type is `ty`.
pub open spec fn with_type(rs: Seq<RecipeV>, ty: Seq<char>) -> Seq<RecipeV> {
    rs.filter(|rv: RecipeV| rv.recipe_type == ty)
}

/// Newest-first order: `a` sorts no later than `b` when its timestamp is
/// larger, ties broken by transaction id.
pub open spec fn key_ge(a: Recipe, b: Recipe) -> bool {
    a.timestamp > b.timestamp || (a.timestamp == b.timestamp && a.id >= b.id)
}

/// Whether a recipe list is sorted newest first.
pub open spec fn recipes_sorted(s: Seq<Recipe>) -> bool {
    forall|i: int, j: int| 0 <= i < j < s.len() ==> key_ge(#[trigger] s[i], #[trigger] s[j])
}

/// Inserting anywhere into a sequence inserts into its multiset.
proof fn lemma_ms_insert(s: Seq<RecipeV>, p: int, x: RecipeV)
    requires
        0 <= p <= s.len(),
    ensures
        s.insert(p, x).to_multiset() == s.to_multiset().insert(x),
{
    let inserted = s.insert(p, x);
    assert(inserted.remove(p) =~= s);
    assert(inserted[p] == x);
    assert(inserted.remove(p).to_multiset() =~= inserted.to_multiset().remove(x));
    assert(inserted.contains(x)) by {
        assert(inserted[p] == x);
    }
    assert(inserted.to_multiset().count(x) > 0);
    assert_multisets_equal!(inserted.to_multiset(), s.to_multiset().insert(x), a => {
        if a == x {
            assert(s.to_multiset().count(x) == inserted.to_multiset().remove(x).count(x));
        } else {
            assert(s.to_multiset().count(a) == inserted.to_multiset().remove(x).count(a));
        }
    });
}

/// Projects one transaction into its display recipe.
pub fn transaction_to_recipe(t: &Transaction) -> (r: Recipe)
    requires
        t.amount > i64::MIN,
    ensures
        r@ == recipe_of_tx(*t),
{
    let amt: String = i64_to_string(t.amount);
    let recipe_type: String = match t.kind {
        TxKind::Transfer => "transfer".to_owned(),
        TxKind::Deposit => "deposit".to_owned(),
        TxKind::Withdrawal => "withdrawal".to_owned(),
        TxKind::BetLock => "bet_placed".to_owned(),
        TxKind::BetSettle => {
            if t.amount > 0 {
                "bet_won".to_owned()
            } else {
                "bet_lost".to_owned()
            }
        },
        TxKind::AdminSet => "admin_set".to_owned(),
    };
    let account: String = match t.kind {
        TxKind::Transfer => t.from.clone(),
        TxKind::Deposit => t.to.clone(),
        TxKind::Withdrawal => t.from.clone(),
        TxKind::BetLock => t.from.clone(),
        TxKind::BetSettle => t.to.clone(),
        TxKind::AdminSet => t.to.clone(),
    };
    let address: String = if !t.from.as_str().is_empty() {
        t.from.clone()
    } else {
        t.to.clone()
    };
    let description: String = match t.kind {
        TxKind::Transfer => "Transfer ".to_owned().concat(amt.as_str()).concat(
            " BB from ",
        ).concat(t.from.as_str()).concat(" to ").concat(t.to.as_str()),
        TxKind::Deposit => "Deposit ".to_owned().concat(amt.as_str()).concat(" BB to ").concat(
            t.to.as_str(),
        ),
        TxKind::Withdrawal => "Withdrawal ".to_owned().concat(amt.as_str()).concat(
            " BB from ",
        ).concat(t.from.as_str()),
        TxKind::BetLock => "Bet ".to_owned().concat(amt.as_str()).concat(
            " BB on market ",
        ).concat(t.to.as_str()),
        TxKind::BetSettle => {
            if t.amount > 0 {
                "Bet won ".to_owned().concat(amt.as_str()).concat(" BB on market ").concat(
                    t.from.as_str(),
                )
            } else {
                "Bet lost on market ".to_owned().concat(t.from.as_str())
            }
        },
        TxKind::AdminSet => "Admin set ".to_owned().concat(amt.as_str()).concat(
            " BB for ",
        ).concat(t.to.as_str()),
    };
    let related_id: Option<String> = match t.kind {
        TxKind::BetLock => Some(t.to.clone()),
        TxKind::BetSettle => Some(t.from.clone()),
        _ => None,
    };
    let mut metadata: Vec<(String, String)> = Vec::new();
    metadata.push(("kind".to_owned(), recipe_type.clone()));
    metadata.push(("from".to_owned(), t.from.clone()));
    metadata.push(("to".to_owned(), t.to.clone()));
    let r = Recipe {
        id: t.id,
        recipe_type,
        account,
        address,
        amount: t.amount,
        description,
        related_id,
        timestamp: t.timestamp,
        metadata,
    };
    proof {
        assert(r@.description =~= description_label(*t));
        assert(r@.metadata =~= metadata_label(*t));
        assert(r@ == recipe_of_tx(*t)) by {
            assert(r@.recipe_type =~= kind_label(*t));
            assert(r@.account =~= account_label(*t));
            assert(r@.address =~= address_label(*t));
        }
    }
    r
}

/// Inserts a recipe into a sorted list, keeping it sorted.
fn insert_sorted(out: &mut Vec<Recipe>, x: Recipe)
    requires
        recipes_sorted(old(out)@),
    ensures
        recipes_sorted(final(out)@),
        final(out)@.len() == old(out)@.len() + 1,
        views_of(final(out)@).to_multiset() == views_of(old(out)@).to_multiset().insert(x@),
{
    let n: usize = out.len();
    let mut p: usize = 0;
    while p < n
        invariant
            n == out@.len(),
            p <= n,
            forall|q: int| 0 <= q < p ==> key_ge(#[trigger] out@[q], x),
        ensures
            p <= n,
            forall|q: int| 0 <= q < p ==> key_ge(#[trigger] out@[q], x),
            p < n ==> !key_ge(out@[p as int], x),
        decreases n - p,
    {
        let cur_ge: bool = {
            let cur = &out[p];
            cur.timestamp > x.timestamp || (cur.timestamp == x.timestamp && cur.id >= x.id)
        };
        if !cur_ge {
            break;
        }
        p = p + 1;
    }
    let ghost pre = out@;
    let ghost pi = p as int;
    out.insert(p, x);
    proof {
        assert(out@ == pre.insert(pi, x));
        assert forall|i: int, j: int| 0 <= i < j < out@.len() implies key_ge(
            #[trigger] out@[i],
            #[trigger] out@[j],
        ) by {
            if j < pi {
                assert(out@[i] == pre[i] && out@[j] == pre[j]);
            } else if i > pi {
                assert(out@[i] == pre[i - 1] && out@[j] == pre[j - 1]);
            } else if i < pi && j == pi {
                assert(out@[i] == pre[i] && out@[j] == x);
            } else if i == pi && j > pi {
                assert(out@[i] == x && out@[j] == pre[j - 1]);
                if pi < pre.len() {
                    assert(!key_ge(pre[pi], x));
                    if j - 1 > pi {
                        assert(key_ge(pre[pi], pre[j - 1]));
                    }
                }
            } else if i < pi && j > pi {
                assert(out@[i] == pre[i] && out@[j] == pre[j - 1]);
            }
        }
        assert(views_of(out@) =~= views_of(pre).insert(pi, x@));
        lemma_ms_insert(views_of(pre), pi, x@);
    }
}

impl Ledger {
    /// All recipes, newest first by timestamp, ties broken by transaction
    /// id: exactly one recipe per log entry.
    pub fn get_recipes_sorted(&self) -> (r: Vec<Recipe>)
        requires
            self.wf(),
        ensures
            recipes_sorted(r@),
            r@.len() == self.spec_log().len(),
            views_of(r@).to_multiset() == recipes_of_log(self.spec_log()).to_multiset(),
    {
        let n: usize = self.transactions.len();
        let mut out: Vec<Recipe> = Vec::new();
        let mut i: usize = 0;
        proof {
            assert(recipes_of_log(self.transactions@.take(0)) =~= Seq::<RecipeV>::empty());
            assert(views_of(out@) =~= Seq::<RecipeV>::empty());
        }
        while i < n
            invariant
                self.wf(),
                n == self.transactions@.len(),
                i <= n,
                out@.len() == i,
                recipes_sorted(out@),
                views_of(out@).to_multiset() == recipes_of_log(
                    self.transactions@.take(i as int),
                ).to_multiset(),
            decreases n - i,
        {
            let rec = transaction_to_recipe(&self.transactions[i]);
            proof {
                assert(recipes_of_log(self.transactions@.take(i + 1)) =~= recipes_of_log(
                    self.transactions@.take(i as int),
                ).push(recipe_of_tx(self.transactions@[i as int])));
            }
            insert_sorted(&mut out, rec);
            i = i + 1;
        }
        proof {
            assert(self.transactions@.take(n as int) =~= self.transactions@);
        }
        out
    }

    /// The recipes of the transactions that involve `address`, newest
    /// first.
    pub fn get_account_recipes_sorted(&self, address: &str) -> (r: Vec<Recipe>)
        requires
            self.wf(),
        ensures
            recipes_sorted(r@),
            views_of(r@).to_multiset() == recipes_of_log(
                involving(self.spec_log(), address@),
            ).to_multiset(),
    {
        let n: usize = self.transactions.len();
        let mut out: Vec<Recipe> = Vec::new();
        let mut i: usize = 0;
        proof {
            assert(involving(self.transactions@.take(0), address@) =~= Seq::<
                Transaction,
            >::empty());
            assert(recipes_of_log(involving(self.transactions@.take(0), address@)) =~= Seq::<
                RecipeV,
            >::empty());
            assert(views_of(out@) =~= Seq::<RecipeV>::empty());
        }
        while i < n
            invariant
                self.wf(),
                n == self.transactions@.len(),
                i <= n,
                recipes_sorted(out@),
                views_of(out@).to_multiset() == recipes_of_log(
                    involving(self.transactions@.take(i as int), address@),
                ).to_multiset(),
            decreases n - i,
        {
            let t = &self.transactions[i];
            let involved: bool = {
                let f = crate::ledger::str_eq(t.from.as_str(), address);
                let g = crate::ledger::str_eq(t.to.as_str(), address);
                f || g
            };
            proof {
                assert(self.transactions@.take(i + 1).drop_last() =~= self.transactions@.take(
                    i as int,
                ));
                assert(self.transactions@.take(i + 1).last() == self.transactions@[i as int]);
                reveal_with_fuel(Seq::filter, 2);
                assert(involving(self.transactions@.take(i + 1), address@) == if involved {
                    involving(self.transactions@.take(i as int), address@).push(
                        self.transactions@[i as int],
                    )
                } else {
                    involving(self.transactions@.take(i as int), address@)
                });
            }
            if involved {
                let rec = transaction_to_recipe(t);
                proof {
                    assert(recipes_of_log(involving(self.transactions@.take(i + 1), address@))
                        =~= recipes_of_log(
                        involving(self.transactions@.take(i as int), address@),
                    ).push(recipe_of_tx(self.transactions@[i as int])));
                }
                insert_sorted(&mut out, rec);
            }
            i = i + 1;
        }
        proof {
            assert(self.transactions@.take(n as int) =~= self.transactions@);
        }
        out
    }

    /// The recipes of one display type, newest first.  An unknown type
    /// yields an empty list, not an error.
    pub fn get_recipes_by_type(&self, recipe_type: &str) -> (r: Vec<Recipe>)
        requires
            self.wf(),
        ensures
            recipes_sorted(r@),
            views_of(r@).to_multiset() == with_type(
                recipes_of_log(self.spec_log()),
                recipe_type@,
            ).to_multiset(),
    {
        let n: usize = self.transactions.len();
        let mut out: Vec<Recipe> = Vec::new();
        let mut i: usize = 0;
        proof {
            assert(recipes_of_log(self.transactions@.take(0)) =~= Seq::<RecipeV>::empty());
            assert(with_type(Seq::<RecipeV>::empty(), recipe_type@) =~= Seq::<RecipeV>::empty());
            assert(views_of(out@) =~= Seq::<RecipeV>::empty());
        }
        while i < n
            invariant
                self.wf(),
                n == self.transactions@.len(),
                i <= n,
                recipes_sorted(out@),
                views_of(out@).to_multiset() == with_type(
                    recipes_of_log(self.transactions@.take(i as int)),
                    recipe_type@,
                ).to_multiset(),
            decreases n - i,
        {
            let rec = transaction_to_recipe(&self.transactions[i]);
            let matches_type: bool = crate::ledger::str_eq(
                rec.recipe_type.as_str(),
                recipe_type,
            );
            proof {
                let prev = recipes_of_log(self.transactions@.take(i as int));
                assert(recipes_of_log(self.transactions@.take(i + 1)) =~= prev.push(
                    recipe_of_tx(self.transactions@[i as int]),
                ));
                reveal_with_fuel(Seq::filter, 2);
                assert(prev.push(recipe_of_tx(self.transactions@[i as int])).drop_last()
                    =~= prev);
                assert(with_type(recipes_of_log(self.transactions@.take(i + 1)), recipe_type@)
                    == if matches_type {
                    with_type(prev, recipe_type@).push(
                        recipe_of_tx(self.transactions@[i as int]),
                    )
                } else {
                    with_type(prev, recipe_type@)
                });
            }
            if matches_type {
                insert_sorted(&mut out, rec);
            }
            i = i + 1;
        }
        proof {
            assert(self.transactions@.take(n as int) =~= self.transactions@);
        }
        out
    }
}

} // verus!
